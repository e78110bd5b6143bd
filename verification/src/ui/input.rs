use crate::cards::card::{Card, Rank, Suit};
use crate::cards::cardset::CardSet;
use crate::operations::showdown::Showdown;
use crate::ui::argparser::{arg_chars, joined, ArgStream};
use crate::util::array::monomorphize;
use vstd::prelude::*;

verus! {

/// Whether a character has the property `White_Space` of Unicode, as
/// `char::is_whitespace` finds it.
pub uninterp spec fn white_space(c: char) -> bool;

/// `char::is_whitespace` says whether a character has the property
/// `White_Space`.
pub assume_specification[ char::is_whitespace ](c: char) -> (white: bool)
    ensures
        white == white_space(c),
;

/// The rank that a character stands for: a digit from 2 to 9, or one of the
/// letters T, J, Q, K and A, small or capital.
pub open spec fn rank_of(c: char) -> Option<Rank> {
    if c == '2' {
        Some(Rank::Two)
    } else if c == '3' {
        Some(Rank::Three)
    } else if c == '4' {
        Some(Rank::Four)
    } else if c == '5' {
        Some(Rank::Five)
    } else if c == '6' {
        Some(Rank::Six)
    } else if c == '7' {
        Some(Rank::Seven)
    } else if c == '8' {
        Some(Rank::Eight)
    } else if c == '9' {
        Some(Rank::Nine)
    } else if c == 'T' || c == 't' {
        Some(Rank::Ten)
    } else if c == 'J' || c == 'j' {
        Some(Rank::Jack)
    } else if c == 'Q' || c == 'q' {
        Some(Rank::Queen)
    } else if c == 'K' || c == 'k' {
        Some(Rank::King)
    } else if c == 'A' || c == 'a' {
        Some(Rank::Ace)
    } else {
        None
    }
}

/// The suit that a character stands for: one of the letters c, d, h and s,
/// small or capital, or the glyph of the suit.
pub open spec fn suit_of(c: char) -> Option<Suit> {
    if c == 'c' || c == 'C' || c == '\u{2663}' {
        Some(Suit::Club)
    } else if c == 'd' || c == 'D' || c == '\u{2666}' {
        Some(Suit::Diamond)
    } else if c == 'h' || c == 'H' || c == '\u{2665}' {
        Some(Suit::Heart)
    } else if c == 's' || c == 'S' || c == '\u{2660}' {
        Some(Suit::Spade)
    } else {
        None
    }
}

/// The card that `input` begins with, and the number of its characters: a
/// rank, where `10` stands for the ten too, and then a suit.
pub open spec fn card_of(input: Seq<char>) -> Option<(Card, usize)> {
    if input.len() == 0 {
        None
    } else if input[0] == '1' {
        if input.len() >= 3 && input[1] == '0' && suit_of(input[2]) is Some {
            Some((Card { rank: Rank::Ten, suit: suit_of(input[2]).unwrap() }, 3usize))
        } else {
            None
        }
    } else if input.len() >= 2 && rank_of(input[0]) is Some && suit_of(input[1]) is Some {
        Some((Card { rank: rank_of(input[0]).unwrap(), suit: suit_of(input[1]).unwrap() }, 2usize))
    } else {
        None
    }
}

/// The number of characters of white space that `input` begins with.
pub open spec fn spaces(input: Seq<char>) -> nat
    decreases input.len(),
{
    if input.len() == 0 || !white_space(input[0]) {
        0
    } else {
        1 + spaces(input.drop_first())
    }
}

/// The number of characters other than white space that `input` begins
/// with.
pub open spec fn token_len(input: Seq<char>) -> nat
    decreases input.len(),
{
    if input.len() == 0 || white_space(input[0]) {
        0
    } else {
        1 + token_len(input.drop_first())
    }
}

/// `input` begins with the characters of `literal`.
pub open spec fn begins_with(input: Seq<char>, literal: Seq<char>) -> bool {
    literal.len() <= input.len() && input.take(literal.len() as int) == literal
}

/// The white space and the token that a text begins with are no longer
/// than the text.
pub proof fn lemma_spaces_bound(input: Seq<char>)
    ensures
        spaces(input) <= input.len(),
        token_len(input) <= input.len(),
    decreases input.len(),
{
    if input.len() > 0 {
        lemma_spaces_bound(input.drop_first());
    }
}

fn rank_from(c: char) -> (rank: Option<Rank>)
    ensures
        rank == rank_of(c),
{
    if c == '2' {
        Some(Rank::Two)
    } else if c == '3' {
        Some(Rank::Three)
    } else if c == '4' {
        Some(Rank::Four)
    } else if c == '5' {
        Some(Rank::Five)
    } else if c == '6' {
        Some(Rank::Six)
    } else if c == '7' {
        Some(Rank::Seven)
    } else if c == '8' {
        Some(Rank::Eight)
    } else if c == '9' {
        Some(Rank::Nine)
    } else if c == 'T' || c == 't' {
        Some(Rank::Ten)
    } else if c == 'J' || c == 'j' {
        Some(Rank::Jack)
    } else if c == 'Q' || c == 'q' {
        Some(Rank::Queen)
    } else if c == 'K' || c == 'k' {
        Some(Rank::King)
    } else if c == 'A' || c == 'a' {
        Some(Rank::Ace)
    } else {
        None
    }
}

fn suit_from(c: char) -> (suit: Option<Suit>)
    ensures
        suit == suit_of(c),
{
    if c == 'c' || c == 'C' || c == '\u{2663}' {
        Some(Suit::Club)
    } else if c == 'd' || c == 'D' || c == '\u{2666}' {
        Some(Suit::Diamond)
    } else if c == 'h' || c == 'H' || c == '\u{2665}' {
        Some(Suit::Heart)
    } else if c == 's' || c == 'S' || c == '\u{2660}' {
        Some(Suit::Spade)
    } else {
        None
    }
}

/// The card that `input` begins with, and the number of its characters.
pub fn stream_card(input: &[char]) -> (card: Option<(Card, usize)>)
    ensures
        card == card_of(input@),
        card matches Some(found) ==> found.1 <= input@.len(),
{
    if input.len() == 0 {
        return None;
    }
    let mut at: usize = 1;
    let rank = if input[0] == '1' {
        if input.len() >= 2 && input[1] == '0' {
            at = 2;
            Rank::Ten
        } else {
            return None;
        }
    } else {
        match rank_from(input[0]) {
            Some(rank) => rank,
            None => {
                return None;
            },
        }
    };
    if at >= input.len() {
        return None;
    }
    match suit_from(input[at]) {
        Some(suit) => Some((Card { rank, suit }, at + 1)),
        None => None,
    }
}

/// The characters of `literal`, where `input` begins with them, and their
/// number.
pub fn stream_literal_ignorecase(literal: &[char], input: &[char]) -> (found: Option<
    (Vec<char>, usize),
>)
    ensures
        found is Some <==> begins_with(input@, literal@),
        found matches Some(value) ==> value.0@ == literal@ && value.1 == literal@.len(),
{
    if literal.len() > input.len() {
        return None;
    }
    let mut copy: Vec<char> = Vec::new();
    let mut i: usize = 0;
    while i < literal.len()
        invariant
            i <= literal@.len() <= input@.len(),
            copy@ == literal@.take(i as int),
            input@.take(i as int) == literal@.take(i as int),
        decreases literal@.len() - i,
    {
        if input[i] != literal[i] {
            proof {
                if begins_with(input@, literal@) {
                    assert(input@.take(literal@.len() as int)[i as int] == literal@[i as int]);
                }
            }
            return None;
        }
        copy.push(literal[i]);
        proof {
            assert(literal@.take(i + 1) =~= literal@.take(i as int).push(literal@[i as int]));
            assert(input@.take(i + 1) =~= input@.take(i as int).push(input@[i as int]));
        }
        i += 1;
    }
    proof {
        assert(literal@.take(literal@.len() as int) =~= literal@);
    }
    Some((copy, literal.len()))
}

/// The white space that `input` begins with, and the number of its
/// characters; nothing where `input` does not begin with white space.
pub fn stream_whitespace(input: &[char]) -> (found: Option<(Vec<char>, usize)>)
    ensures
        found is Some <==> spaces(input@) > 0,
        found matches Some(value) ==> value.1 == spaces(input@) && value.0@ == input@.take(
            value.1 as int,
        ) && value.1 <= input@.len(),
{
    let mut ret: Vec<char> = Vec::new();
    let mut i: usize = 0;
    proof {
        assert(input@.skip(0) =~= input@);
    }
    while i < input.len() && input[i].is_whitespace()
        invariant
            i <= input@.len(),
            ret@ == input@.take(i as int),
            spaces(input@) == i + spaces(input@.skip(i as int)),
        decreases input@.len() - i,
    {
        ret.push(input[i]);
        proof {
            assert(input@.take(i + 1) =~= input@.take(i as int).push(input@[i as int]));
            assert(input@.skip(i as int).drop_first() =~= input@.skip(i + 1));
        }
        i += 1;
    }
    if i == 0 {
        None
    } else {
        Some((ret, i))
    }
}

/// The characters other than white space that `input` begins with, and
/// their number; nothing where `input` begins with white space or is empty.
pub fn stream_token(input: &[char]) -> (found: Option<(Vec<char>, usize)>)
    ensures
        found is Some <==> token_len(input@) > 0,
        found matches Some(value) ==> value.1 == token_len(input@) && value.0@ == input@.take(
            value.1 as int,
        ) && value.1 <= input@.len(),
{
    let mut ret: Vec<char> = Vec::new();
    let mut i: usize = 0;
    proof {
        assert(input@.skip(0) =~= input@);
    }
    while i < input.len() && !input[i].is_whitespace()
        invariant
            i <= input@.len(),
            ret@ == input@.take(i as int),
            token_len(input@) == i + token_len(input@.skip(i as int)),
        decreases input@.len() - i,
    {
        ret.push(input[i]);
        proof {
            assert(input@.take(i + 1) =~= input@.take(i as int).push(input@[i as int]));
            assert(input@.skip(i as int).drop_first() =~= input@.skip(i + 1));
        }
        i += 1;
    }
    if i == 0 {
        None
    } else {
        Some((ret, i))
    }
}

/// All characters of `input`, and their number.
pub fn stream_drain(input: &[char]) -> (found: Option<(Vec<char>, usize)>)
    ensures
        found matches Some(value) && value.0@ == input@ && value.1 == input@.len(),
{
    let mut ret: Vec<char> = Vec::new();
    let mut i: usize = 0;
    while i < input.len()
        invariant
            i <= input@.len(),
            ret@ == input@.take(i as int),
        decreases input@.len() - i,
    {
        ret.push(input[i]);
        proof {
            assert(input@.take(i + 1) =~= input@.take(i as int).push(input@[i as int]));
        }
        i += 1;
    }
    proof {
        assert(input@.take(input@.len() as int) =~= input@);
    }
    Some((ret, input.len()))
}

/// Why a command line is not a showdown.
#[derive(Debug, Clone, PartialEq, Eq)]
pub enum InputError {
    /// No operation was given: the help is wanted.
    Help,
    /// Help for the operation is wanted.
    HelpFor { operation: Vec<char> },
    /// The operation is not known.
    UnrecognizedOperation { operation: Vec<char> },
    /// A card was expected where `left` characters are left to read.
    ExpectedCard { left: usize },
    /// The second card of a pocket was expected where `left` characters are
    /// left to read.
    PocketNeedsTwoCards { left: usize },
    /// More than 23 pockets were given.
    TooManyPockets { count: usize },
    /// Fewer than 2 pockets were given.
    TooFewPockets { count: usize },
    /// A card was given twice for the board.
    DuplicateCard { card: Card },
    /// More than five cards were given for the board.
    BoardTooLarge { count: usize },
    /// The showdown ends where `left` characters are left to read.
    TrailingInput { left: usize },
}

/// What is left of `input` behind the white space that it begins with.
pub open spec fn after_spaces(input: Seq<char>) -> Seq<char> {
    input.skip(spaces(input) as int)
}

/// What is left of `input` behind one comma, where it begins with one, and
/// the white space that follows.
pub open spec fn after_comma(input: Seq<char>) -> Seq<char> {
    if input.len() > 0 && input[0] == ',' {
        after_spaces(input.skip(1))
    } else {
        after_spaces(input)
    }
}

/// What reading a pocket from `input` gives: two cards and what is left of
/// the input behind the pocket and the white space that follows it; or the
/// error. A pocket is a card, then white space, a comma and white space, each
/// of which may be missing, then a card.
pub open spec fn pocket_of(input: Seq<char>) -> Result<(Card, Card, Seq<char>), InputError> {
    match card_of(input) {
        None => Err(InputError::ExpectedCard { left: input.len() as usize }),
        Some((first, count)) => {
            let middle = after_comma(after_spaces(input.skip(count as int)));
            match card_of(middle) {
                None => Err(InputError::PocketNeedsTwoCards { left: middle.len() as usize }),
                Some((second, more)) => Ok((first, second, after_spaces(middle.skip(more as int)))),
            }
        },
    }
}

/// The pockets and what is left of the input, or the error.
pub type Pockets = Result<(Seq<(Card, Card)>, Seq<char>), InputError>;

/// `found` with the pairs of `pairs` before its own.
pub open spec fn prepend(pairs: Seq<(Card, Card)>, found: Pockets) -> Pockets {
    match found {
        Ok((more, rest)) => Ok((pairs + more, rest)),
        Err(error) => Err(error),
    }
}

/// Where the next pocket begins: at the beginning of `input` for the first
/// pocket, and behind the letters `vs` and white space for the others.
pub open spec fn pocket_start(input: Seq<char>, first: bool) -> Seq<char> {
    if first {
        input
    } else {
        after_spaces(input.skip(2))
    }
}

/// What reading pockets from `input` gives, where `first` says that none
/// was read before: the pairs of cards and what is left of the input; or the
/// error. Before every pocket but the first stand the letters `vs` and white
/// space, which may be missing; where the letters do not follow, the pockets
/// end.
pub open spec fn pockets_of(input: Seq<char>, first: bool) -> Pockets
    decreases input.len(),
{
    if !first && !begins_with(input, seq!['v', 's']) {
        Ok((Seq::empty(), input))
    } else {
        match pocket_of(pocket_start(input, first)) {
            Err(error) => Err(error),
            Ok((one, two, left)) => if left.len() < input.len() {
                prepend(seq![(one, two)], pockets_of(left, false))
            } else {
                Ok((seq![(one, two)], left))
            },
        }
    }
}

/// What reading the pockets of a showdown from `input` gives: between 2 and
/// 23 pockets and what is left of the input; or the error.
pub open spec fn showdown_pockets_of(input: Seq<char>) -> Pockets {
    match pockets_of(input, true) {
        Err(error) => Err(error),
        Ok((pockets, left)) => if pockets.len() > 23 {
            Err(InputError::TooManyPockets { count: pockets.len() as usize })
        } else if pockets.len() < 2 {
            Err(InputError::TooFewPockets { count: pockets.len() as usize })
        } else {
            Ok((pockets, left))
        },
    }
}

/// The pockets that pairs of cards make.
pub open spec fn pocket_sets(pairs: Seq<(Card, Card)>) -> Seq<Set<Card>> {
    Seq::new(pairs.len(), |i: int| set![pairs[i].0, pairs[i].1])
}

/// The sets of cards that a list of values holds.
pub open spec fn views(sets: Seq<CardSet>) -> Seq<Set<Card>> {
    Seq::new(sets.len(), |i: int| sets[i]@)
}

/// What is left behind white space is no longer than what there was.
proof fn lemma_after_spaces(input: Seq<char>)
    ensures
        after_spaces(input).len() <= input.len(),
{
    lemma_spaces_bound(input);
}

/// A pocket that was read leaves less than there was.
proof fn lemma_pocket_shortens(input: Seq<char>)
    ensures
        pocket_of(input) matches Ok(found) ==> found.2.len() < input.len(),
{
    match card_of(input) {
        None => {},
        Some((first, count)) => {
            let one = after_spaces(input.skip(count as int));
            lemma_after_spaces(input.skip(count as int));
            lemma_after_spaces(one);
            if one.len() > 0 {
                lemma_after_spaces(one.skip(1));
            }
            let middle = after_comma(one);
            match card_of(middle) {
                None => {},
                Some((second, more)) => {
                    lemma_after_spaces(middle.skip(more as int));
                },
            }
        },
    }
}

/// Reading pockets is reading one pocket and then the pockets behind it.
proof fn lemma_pockets_step(input: Seq<char>, first: bool)
    requires
        first || begins_with(input, seq!['v', 's']),
    ensures
        pockets_of(input, first) == match pocket_of(pocket_start(input, first)) {
            Err(error) => Err::<(Seq<(Card, Card)>, Seq<char>), InputError>(error),
            Ok((one, two, left)) => prepend(seq![(one, two)], pockets_of(left, false)),
        },
{
    let start = pocket_start(input, first);
    lemma_pocket_shortens(start);
    if !first {
        lemma_after_spaces(input.skip(2));
    }
}

/// Reads the white space that the stream begins with.
fn skip_whitespace(stream: &mut ArgStream)
    ensures
        final(stream).remaining() == after_spaces(old(stream).remaining()),
{
    let ghost before = stream.remaining();
    match stream_whitespace(stream.rest()) {
        Some((_, count)) => {
            stream.advance(count);
        },
        None => {
            proof {
                assert(before.skip(0) =~= before);
            }
        },
    }
}

/// Reads a card from the stream; where the stream does not begin with one,
/// nothing is read.
fn read_card(stream: &mut ArgStream) -> (card: Option<Card>)
    ensures
        match card_of(old(stream).remaining()) {
            Some((found, count)) => card == Some(found) && final(stream).remaining() == old(stream).remaining().skip(count as int),
            None => card is None && final(stream).remaining() == old(stream).remaining(),
        },
{
    match stream_card(stream.rest()) {
        Some((card, count)) => {
            stream.advance(count);
            Some(card)
        },
        None => None,
    }
}

/// Reads the characters of `literal` from the stream; where the stream does
/// not begin with them, nothing is read.
fn read_literal(stream: &mut ArgStream, literal: &[char]) -> (found: bool)
    ensures
        found == begins_with(old(stream).remaining(), literal@),
        found ==> final(stream).remaining() == old(stream).remaining().skip(
            literal@.len() as int,
        ),
        !found ==> final(stream).remaining() == old(stream).remaining(),
{
    match stream_literal_ignorecase(literal, stream.rest()) {
        Some((_, count)) => {
            stream.advance(count);
            true
        },
        None => false,
    }
}

/// Reads a comma, where the stream begins with one, and the white space
/// behind it.
fn skip_comma(stream: &mut ArgStream) -> (found: bool)
    ensures
        found == (old(stream).remaining().len() > 0 && old(stream).remaining()[0] == ','),
        final(stream).remaining() == after_comma(old(stream).remaining()),
{
    let comma = [','];
    let ghost input = stream.remaining();
    let found = read_literal(stream, comma.as_slice());
    proof {
        assert(comma@ =~= seq![',']);
        if input.len() > 0 {
            assert(input.take(1) =~= seq![input[0]]);
        }
        if begins_with(input, comma@) {
            assert(input.take(1)[0] == ',');
        }
    }
    skip_whitespace(stream);
    found
}

/// Reads one pocket and the white space behind it.
fn parse_pocket(stream: &mut ArgStream) -> (pocket: Result<(Card, Card), InputError>)
    ensures
        match pocket_of(old(stream).remaining()) {
            Ok((first, second, left)) => pocket == Ok::<(Card, Card), InputError>((first, second))
                && final(stream).remaining() == left,
            Err(error) => pocket == Err::<(Card, Card), InputError>(error),
        },
{
    let left = stream.rest().len();
    let first_card = match read_card(stream) {
        Some(card) => card,
        None => {
            return Err(InputError::ExpectedCard { left });
        },
    };
    skip_whitespace(stream);
    skip_comma(stream);
    let left = stream.rest().len();
    let second_card = match read_card(stream) {
        Some(card) => card,
        None => {
            return Err(InputError::PocketNeedsTwoCards { left });
        },
    };
    skip_whitespace(stream);
    Ok((first_card, second_card))
}

/// The set of two cards.
fn pocket_set(one: Card, two: Card) -> (pocket: CardSet)
    ensures
        pocket@ == set![one, two],
{
    let cards = [one, two];
    let pocket = CardSet::from_cards(cards.as_slice());
    proof {
        assert forall|c: Card| cards@.to_set().contains(c) <==> set![one, two].contains(c) by {
            assert(cards@[0] == one);
            assert(cards@[1] == two);
            if cards@.contains(c) {
                let k = choose|k: int| 0 <= k < cards@.len() && cards@[k] == c;
                assert(k == 0 || k == 1);
            }
            if c == one {
                assert(cards@.contains(cards@[0]));
            }
            if c == two {
                assert(cards@.contains(cards@[1]));
            }
        }
        assert(cards@.to_set() =~= set![one, two]);
    }
    pocket
}

/// Reads the pockets of a showdown: pockets with the letters `vs` between
/// them, between 2 and 23.
pub fn parse_pockets(stream: &mut ArgStream) -> (pockets: Result<Vec<CardSet>, InputError>)
    ensures
        match showdown_pockets_of(old(stream).remaining()) {
            Ok((pairs, left)) => pockets is Ok && views(pockets.unwrap()@) == pocket_sets(pairs)
                && final(stream).remaining() == left,
            Err(error) => pockets == Err::<Vec<CardSet>, InputError>(error),
        },
{
    let mut pockets: Vec<CardSet> = Vec::new();
    let ghost whole = stream.remaining();
    let ghost mut pairs = Seq::<(Card, Card)>::empty();
    let vs = ['v', 's'];
    proof {
        assert(vs@ =~= seq!['v', 's']);
        match pockets_of(whole, true) {
            Ok((more, rest)) => {
                assert(pairs + more =~= more);
            },
            Err(error) => {},
        }
        assert(views(pockets@) =~= pocket_sets(pairs));
    }
    loop
        invariant_except_break
            pockets_of(whole, true) == prepend(
                pairs,
                pockets_of(stream.remaining(), pairs.len() == 0),
            ),
        invariant
            vs@ == seq!['v', 's'],
            whole == old(stream).remaining(),
            pockets@.len() == pairs.len(),
            views(pockets@) == pocket_sets(pairs),
        ensures
            pockets_of(whole, true) == Ok::<(Seq<(Card, Card)>, Seq<char>), InputError>(
                (pairs, stream.remaining()),
            ),
        decreases stream.remaining().len(),
    {
        let ghost input = stream.remaining();
        let ghost first = pairs.len() == 0;
        if !pockets.is_empty() {
            if !read_literal(stream, vs.as_slice()) {
                proof {
                    assert(pairs + Seq::<(Card, Card)>::empty() =~= pairs);
                }
                break ;
            }
            skip_whitespace(stream);
        }
        proof {
            lemma_pockets_step(input, first);
            lemma_pocket_shortens(pocket_start(input, first));
            if !first {
                lemma_after_spaces(input.skip(2));
            }
        }
        let (one, two) = match parse_pocket(stream) {
            Ok(cards) => cards,
            Err(error) => {
                return Err(error);
            },
        };
        let pocket = pocket_set(one, two);
        let ghost before = pairs;
        let ghost before_sets = pockets@;
        pockets.push(pocket);
        proof {
            pairs = before.push((one, two));
            assert forall|i: int| 0 <= i < pockets@.len() implies views(pockets@)[i]
                == pocket_sets(pairs)[i] by {
                if i < before.len() {
                    assert(views(before_sets)[i] == pocket_sets(before)[i]);
                }
            }
            assert(views(pockets@) =~= pocket_sets(pairs));
            match pockets_of(stream.remaining(), false) {
                Ok((more, rest)) => {
                    assert(before + (seq![(one, two)] + more) =~= pairs + more);
                },
                Err(error) => {},
            }
        }
    }
    if pockets.len() > 23 {
        Err(InputError::TooManyPockets { count: pockets.len() })
    } else if pockets.len() < 2 {
        Err(InputError::TooFewPockets { count: pockets.len() })
    } else {
        Ok(pockets)
    }
}

/// The cards of a board and what is left of the input, or the error.
pub type Board = Result<(Seq<Card>, Seq<char>), InputError>;

/// Where the next card of a board begins: behind white space for the first
/// card, and behind a comma and white space, each of which may be missing,
/// for the others.
pub open spec fn card_start(input: Seq<char>, first: bool) -> Seq<char> {
    if first {
        after_spaces(input)
    } else {
        after_comma(input)
    }
}

/// What reading the cards of a board from `input` gives, where `board`
/// holds the cards read before: the cards and what is left of the input; or
/// the error. Between two cards stands a comma or white space or both; the
/// board ends where no card follows, which is an error behind a comma, as
/// is a card that the board holds already.
pub open spec fn board_of(input: Seq<char>, board: Seq<Card>) -> Board
    decreases input.len(),
{
    let first = board.len() == 0;
    let start = card_start(input, first);
    let comma = !first && input.len() > 0 && input[0] == ',';
    match card_of(start) {
        None => if comma {
            Err(InputError::ExpectedCard { left: start.len() as usize })
        } else {
            Ok((board, start))
        },
        Some((card, count)) => if board.contains(card) {
            Err(InputError::DuplicateCard { card })
        } else if start.skip(count as int).len() < input.len() {
            board_of(start.skip(count as int), board.push(card))
        } else {
            Ok((board.push(card), start.skip(count as int)))
        },
    }
}

/// What reading the board of a showdown from `input` gives: five cards at
/// most and what is left of the input; or the error.
pub open spec fn showdown_board_of(input: Seq<char>) -> Board {
    match board_of(input, Seq::empty()) {
        Err(error) => Err(error),
        Ok((board, left)) => if board.len() > 5 {
            Err(InputError::BoardTooLarge { count: board.len() as usize })
        } else {
            Ok((board, left))
        },
    }
}

/// The pockets and the board of a showdown and what is left of the input,
/// or the error.
pub type Parsed = Result<(Seq<(Card, Card)>, Seq<Card>, Seq<char>), InputError>;

/// What reading a showdown from `input` gives: the pockets and, behind the
/// letters `on`, the board.
pub open spec fn showdown_of(input: Seq<char>) -> Parsed {
    match showdown_pockets_of(input) {
        Err(error) => Err(error),
        Ok((pockets, left)) => {
            let rest = after_spaces(left);
            if begins_with(rest, seq!['o', 'n']) {
                match showdown_board_of(rest.skip(2)) {
                    Err(error) => Err(error),
                    Ok((board, end)) => Ok((pockets, board, end)),
                }
            } else {
                Ok((pockets, Seq::empty(), rest))
            }
        },
    }
}

/// A card that was read leaves less than there was.
proof fn lemma_card_shortens(input: Seq<char>, first: bool)
    ensures
        card_start(input, first).len() <= input.len(),
        card_of(card_start(input, first)) matches Some(found) ==> card_start(input, first).skip(
            found.1 as int,
        ).len() < input.len(),
{
    lemma_after_spaces(input);
    if input.len() > 0 {
        lemma_after_spaces(input.skip(1));
    }
}

/// Reads the cards of a board: five at most.
pub fn parse_board(stream: &mut ArgStream) -> (board: Result<CardSet, InputError>)
    ensures
        match showdown_board_of(old(stream).remaining()) {
            Ok((cards, left)) => board is Ok && board.unwrap()@ == cards.to_set() && final(stream).remaining() == left,
            Err(error) => board == Err::<CardSet, InputError>(error),
        },
{
    let mut board = CardSet::new();
    let ghost whole = stream.remaining();
    let ghost mut cards = Seq::<Card>::empty();
    let total = stream.rest().len();
    let mut count: usize = 0;
    proof {
        assert(cards.to_set() =~= Set::<Card>::empty());
    }
    loop
        invariant_except_break
            board_of(whole, Seq::empty()) == board_of(stream.remaining(), cards),
        invariant
            whole == old(stream).remaining(),
            board@ == cards.to_set(),
            count == cards.len(),
            total == whole.len(),
            cards.len() + stream.remaining().len() <= whole.len(),
        ensures
            board_of(whole, Seq::empty()) == Ok::<(Seq<Card>, Seq<char>), InputError>(
                (cards, stream.remaining()),
            ),
        decreases stream.remaining().len(),
    {
        let ghost input = stream.remaining();
        let ghost first = cards.len() == 0;
        let comma = if count > 0 {
            skip_comma(stream)
        } else {
            skip_whitespace(stream);
            false
        };
        proof {
            lemma_card_shortens(input, first);
        }
        let left = stream.rest().len();
        let card = match read_card(stream) {
            Some(card) => card,
            None => {
                if comma {
                    return Err(InputError::ExpectedCard { left });
                } else {
                    break ;
                }
            },
        };
        if board.has(card) {
            return Err(InputError::DuplicateCard { card });
        }
        let ghost before = cards;
        board.insert(card);
        proof {
            cards = before.push(card);
            assert(cards.to_set() =~= before.to_set().insert(card)) by {
                assert forall|c: Card| cards.to_set().contains(c) <==> before.to_set().insert(
                    card,
                ).contains(c) by {
                    if cards.contains(c) {
                        let k = choose|k: int| 0 <= k < cards.len() && cards[k] == c;
                        if k < before.len() {
                            assert(before[k] == c);
                        }
                    }
                    if before.contains(c) {
                        let k = choose|k: int| 0 <= k < before.len() && before[k] == c;
                        assert(cards[k] == c);
                    }
                    assert(cards[before.len() as int] == card);
                }
            }
        }
        count = count + 1;
    }
    if count > 5 {
        return Err(InputError::BoardTooLarge { count });
    }
    Ok(board)
}

/// The pockets of a showdown, as sets of cards.
pub open spec fn showdown_pockets(showdown: Showdown) -> Seq<Set<Card>> {
    views(showdown.pockets.elements())
}

/// Reads a showdown: pockets and, behind the letters `on`, a board.
pub fn parse_showdown(stream: &mut ArgStream) -> (showdown: Result<Showdown, InputError>)
    ensures
        match showdown_of(old(stream).remaining()) {
            Ok((pairs, cards, left)) => showdown is Ok && showdown_pockets(showdown.unwrap())
                == pocket_sets(pairs) && showdown.unwrap().board@ == cards.to_set() && final(stream).remaining() == left,
            Err(error) => showdown == Err::<Showdown, InputError>(error),
        },
{
    let pockets = match parse_pockets(stream) {
        Ok(pockets) => pockets,
        Err(error) => {
            return Err(error);
        },
    };
    skip_whitespace(stream);
    let on = ['o', 'n'];
    proof {
        assert(on@ =~= seq!['o', 'n']);
    }
    let board = if read_literal(stream, on.as_slice()) {
        match parse_board(stream) {
            Ok(board) => board,
            Err(error) => {
                return Err(error);
            },
        }
    } else {
        proof {
            assert(Seq::<Card>::empty().to_set() =~= Set::<Card>::empty());
        }
        CardSet::new()
    };
    proof {
        assert(views(pockets@).len() == pockets@.len());
        assert(pockets@.len() <= 23);
    }
    match monomorphize(pockets) {
        Some(array) => Ok(Showdown { pockets: array, board }),
        None => {
            proof {
                assert(false);
            }
            Err(InputError::TooManyPockets { count: 24 })
        },
    }
}

/// Whether two slices hold the same characters.
fn same_chars(a: &[char], b: &[char]) -> (same: bool)
    ensures
        same == (a@ == b@),
{
    if a.len() != b.len() {
        return false;
    }
    let mut i: usize = 0;
    while i < a.len()
        invariant
            i <= a@.len(),
            a@.len() == b@.len(),
            forall|k: int| 0 <= k < i ==> a@[k] == b@[k],
        decreases a@.len() - i,
    {
        if a[i] != b[i] {
            return false;
        }
        i += 1;
    }
    proof {
        assert(a@ =~= b@);
    }
    true
}

/// The letters of the operation that reads a showdown.
pub open spec fn showdown_word() -> Seq<char> {
    seq!['s', 'h', 'o', 'w', 'd', 'o', 'w', 'n']
}

/// Whether an argument asks for help.
pub open spec fn asks_help(arg: Seq<char>) -> bool {
    arg == seq!['-', '-', 'h', 'e', 'l', 'p'] || arg == seq!['-', 'h']
}

/// What the arguments of the program stand for. Behind the name of the
/// program comes the operation; without one, the help is wanted, and with
/// `--help` or `-h` behind it the help for the operation. The arguments
/// behind the operation `showdown`, with one space between two of them, are
/// read as a showdown, behind which nothing may be left.
pub open spec fn input_of(args: Seq<Seq<char>>) -> Parsed {
    if args.len() < 2 {
        Err(InputError::Help)
    } else if args.len() >= 3 && asks_help(args[2]) {
        Err(InputError::HelpFor { operation: choose_vec(args[1]) })
    } else if args[1] != showdown_word() {
        Err(InputError::UnrecognizedOperation { operation: choose_vec(args[1]) })
    } else {
        match showdown_of(joined(args, 2)) {
            Err(error) => Err(error),
            Ok((pairs, cards, left)) => if left.len() > 0 {
                Err(InputError::TrailingInput { left: left.len() as usize })
            } else {
                Ok((pairs, cards, left))
            },
        }
    }
}

/// A vector of the characters of `chars`.
pub open spec fn choose_vec(chars: Seq<char>) -> Vec<char> {
    choose|v: Vec<char>| v@ == chars
}

/// The error of `error`, where two errors that name an operation are the
/// same where they name the same characters.
pub open spec fn same_error(a: InputError, b: InputError) -> bool {
    match (a, b) {
        (InputError::HelpFor { operation: x }, InputError::HelpFor { operation: y }) => x@ == y@,
        (
            InputError::UnrecognizedOperation { operation: x },
            InputError::UnrecognizedOperation { operation: y },
        ) => x@ == y@,
        _ => a == b,
    }
}

/// A copy of the characters of `chars`.
fn copy_chars(chars: &[char]) -> (copy: Vec<char>)
    ensures
        copy@ == chars@,
{
    match stream_drain(chars) {
        Some((copy, _)) => copy,
        None => Vec::new(),
    }
}

/// Reads the arguments of the program, the name of the program first.
pub fn parse_input(args: &Vec<Vec<char>>) -> (showdown: Result<Showdown, InputError>)
    ensures
        match input_of(arg_chars(args@)) {
            Ok((pairs, cards, left)) => showdown is Ok && showdown_pockets(showdown.unwrap())
                == pocket_sets(pairs) && showdown.unwrap().board@ == cards.to_set(),
            Err(error) => showdown is Err && same_error(showdown.unwrap_err(), error),
        },
{
    let ghost all = arg_chars(args@);
    if args.len() < 2 {
        return Err(InputError::Help);
    }
    proof {
        assert(all[1] == args@[1]@);
        assert(choose_vec(all[1])@ == all[1]) by {
            assert(args@[1]@ == all[1]);
        }
    }
    if args.len() >= 3 {
        let long = ['-', '-', 'h', 'e', 'l', 'p'];
        let short = ['-', 'h'];
        proof {
            assert(long@ =~= seq!['-', '-', 'h', 'e', 'l', 'p']);
            assert(short@ =~= seq!['-', 'h']);
            assert(all[2] == args@[2]@);
        }
        if same_chars(args[2].as_slice(), long.as_slice()) || same_chars(
            args[2].as_slice(),
            short.as_slice(),
        ) {
            return Err(InputError::HelpFor { operation: copy_chars(args[1].as_slice()) });
        }
    }
    let word = ['s', 'h', 'o', 'w', 'd', 'o', 'w', 'n'];
    proof {
        assert(word@ =~= showdown_word());
    }
    if !same_chars(args[1].as_slice(), word.as_slice()) {
        return Err(InputError::UnrecognizedOperation { operation: copy_chars(args[1].as_slice()) });
    }
    let mut stream = ArgStream::from_args(args, 2);
    let showdown = match parse_showdown(&mut stream) {
        Ok(showdown) => showdown,
        Err(error) => {
            return Err(error);
        },
    };
    if !stream.is_empty() {
        return Err(InputError::TrailingInput { left: stream.rest().len() });
    }
    Ok(showdown)
}

} // verus!
