use poker_odds::cards::card::{Card, Rank, Suit};
use poker_odds::cards::cardset::CardSet;
use poker_odds::ui::argparser::{ArgStream, TakeMode};
use poker_odds::ui::input::{
    parse_board, parse_input, parse_pockets, parse_showdown, stream_card, stream_drain,
    stream_literal_ignorecase, stream_token, stream_whitespace, InputError,
};
use poker_odds::ui::output::{format_separated_values, help_topic, HelpTopic};

fn chars(text: &str) -> Vec<char> {
    text.chars().collect()
}

fn args(line: &str) -> Vec<Vec<char>> {
    line.split(' ').map(chars).collect()
}

fn card(rank: Rank, suit: Suit) -> Card {
    Card { rank, suit }
}

#[test]
fn cards_are_a_rank_and_a_suit() {
    assert_eq!(stream_card(&chars("As")), Some((card(Rank::Ace, Suit::Spade), 2)));
    assert_eq!(stream_card(&chars("tH rest")), Some((card(Rank::Ten, Suit::Heart), 2)));
    assert_eq!(stream_card(&chars("10c")), Some((card(Rank::Ten, Suit::Club), 3)));
    assert_eq!(stream_card(&chars("2\u{2666}")), Some((card(Rank::Two, Suit::Diamond), 2)));
    assert_eq!(stream_card(&chars("1c")), None);
    assert_eq!(stream_card(&chars("A")), None);
    assert_eq!(stream_card(&chars("Ax")), None);
    assert_eq!(stream_card(&chars("")), None);
    assert_eq!(stream_card(&chars(" As")), None);
}

#[test]
fn streams_read_white_space_tokens_and_literals() {
    assert_eq!(stream_whitespace(&chars(" \t x")), Some((chars(" \t "), 3)));
    assert_eq!(stream_whitespace(&chars("x ")), None);
    assert_eq!(stream_token(&chars("abc def")), Some((chars("abc"), 3)));
    assert_eq!(stream_token(&chars(" abc")), None);
    assert_eq!(stream_drain(&chars("a b")), Some((chars("a b"), 3)));
    assert_eq!(stream_literal_ignorecase(&chars("vs"), &chars("vs As")), Some((chars("vs"), 2)));
    assert_eq!(stream_literal_ignorecase(&chars("vs"), &chars("VS As")), None);
    assert_eq!(stream_literal_ignorecase(&chars("vs"), &chars("v")), None);
}

#[test]
fn arg_stream_reads_and_peeks() {
    let mut stream = ArgStream::from_args(&args("pop showdown As Kd"), 2);
    assert_eq!(stream.rest(), &chars("As Kd")[..]);
    assert_eq!(stream.take(TakeMode::Peek), Some('A'));
    assert_eq!(stream.take(TakeMode::Consume), Some('A'));
    assert_eq!(stream.try_parse(stream_card), None);
    assert_eq!(stream.take(TakeMode::Consume), Some('s'));
    assert_eq!(stream.try_parse(stream_whitespace), Some(chars(" ")));
    assert_eq!(stream.try_parse(stream_card), Some(card(Rank::King, Suit::Diamond)));
    assert!(stream.is_empty());
    assert_eq!(stream.take(TakeMode::Consume), None);
    assert!(ArgStream::from_args(&args("pop showdown"), 2).is_empty());
}

#[test]
fn pockets_stand_between_vs() {
    let mut stream = ArgStream::new(chars("AsKs vs Qc, Qd vs 9h8h on Js"));
    let pockets = parse_pockets(&mut stream).unwrap();
    assert_eq!(
        pockets,
        vec![
            CardSet::from_cards(&[card(Rank::Ace, Suit::Spade), card(Rank::King, Suit::Spade)]),
            CardSet::from_cards(&[card(Rank::Queen, Suit::Club), card(Rank::Queen, Suit::Diamond)]),
            CardSet::from_cards(&[card(Rank::Nine, Suit::Heart), card(Rank::Eight, Suit::Heart)]),
        ]
    );
    assert_eq!(stream.rest(), &chars("on Js")[..]);

    let mut stream = ArgStream::new(chars("AsKs"));
    assert_eq!(parse_pockets(&mut stream), Err(InputError::TooFewPockets { count: 1 }));
    let mut stream = ArgStream::new(chars("x"));
    assert_eq!(parse_pockets(&mut stream), Err(InputError::ExpectedCard { left: 1 }));
    let mut stream = ArgStream::new(chars("As vs Kd"));
    assert_eq!(parse_pockets(&mut stream), Err(InputError::PocketNeedsTwoCards { left: 5 }));
    let many = vec!["2c3c"; 24].join(" vs ");
    let mut stream = ArgStream::new(chars(&many));
    assert_eq!(parse_pockets(&mut stream), Err(InputError::TooManyPockets { count: 24 }));
}

#[test]
fn boards_hold_five_cards_at_most() {
    let mut stream = ArgStream::new(chars(" Js, Ts 6d"));
    assert_eq!(
        parse_board(&mut stream),
        Ok(CardSet::from_cards(&[
            card(Rank::Jack, Suit::Spade),
            card(Rank::Ten, Suit::Spade),
            card(Rank::Six, Suit::Diamond)
        ]))
    );
    assert!(stream.is_empty());
    let mut stream = ArgStream::new(chars(""));
    assert_eq!(parse_board(&mut stream), Ok(CardSet::new()));
    let mut stream = ArgStream::new(chars("Js,"));
    assert_eq!(parse_board(&mut stream), Err(InputError::ExpectedCard { left: 0 }));
    let mut stream = ArgStream::new(chars("Js Js"));
    assert_eq!(
        parse_board(&mut stream),
        Err(InputError::DuplicateCard { card: card(Rank::Jack, Suit::Spade) })
    );
    let mut stream = ArgStream::new(chars("2c 3c 4c 5c 6c 7c"));
    assert_eq!(parse_board(&mut stream), Err(InputError::BoardTooLarge { count: 6 }));
}

#[test]
fn input_is_a_showdown_or_an_error() {
    let showdown = parse_input(&args("pop showdown KsQs vs TcTd on Js Ts 6d")).unwrap();
    assert_eq!(
        showdown.pockets.as_slice(),
        &[
            CardSet::from_cards(&[card(Rank::King, Suit::Spade), card(Rank::Queen, Suit::Spade)]),
            CardSet::from_cards(&[card(Rank::Ten, Suit::Club), card(Rank::Ten, Suit::Diamond)]),
        ][..]
    );
    assert_eq!(showdown.board.len(), 3);
    let preflop = parse_input(&args("pop showdown AsKs vs QcQd")).unwrap();
    assert_eq!(preflop.board, CardSet::new());
    assert_eq!(parse_input(&args("pop")), Err(InputError::Help));
    assert_eq!(
        parse_input(&args("pop showdown --help")),
        Err(InputError::HelpFor { operation: chars("showdown") })
    );
    assert_eq!(
        parse_input(&args("pop showdown -h")),
        Err(InputError::HelpFor { operation: chars("showdown") })
    );
    assert_eq!(
        parse_input(&args("pop fold AsKs")),
        Err(InputError::UnrecognizedOperation { operation: chars("fold") })
    );
    assert_eq!(
        parse_input(&args("pop showdown AsKs vs QcQd extra")),
        Err(InputError::TrailingInput { left: 5 })
    );
    let mut stream = ArgStream::new(chars("AsKs vs QcQd"));
    assert!(parse_showdown(&mut stream).is_ok());
}

#[test]
fn texts_are_joined_and_help_is_chosen() {
    assert_eq!(
        format_separated_values(&[chars("a"), chars("bc"), chars("d")], &chars(", ")),
        chars("a, bc, d")
    );
    assert_eq!(format_separated_values(&[], &chars(", ")), chars(""));
    assert_eq!(help_topic(None), HelpTopic::Basic);
    assert_eq!(help_topic(Some(&chars("--help"))), HelpTopic::Basic);
    assert_eq!(help_topic(Some(&chars("showdown"))), HelpTopic::Showdown);
    assert_eq!(help_topic(Some(&chars("fold"))), HelpTopic::Unrecognized);
}
