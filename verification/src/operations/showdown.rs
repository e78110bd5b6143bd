use crate::analysis::odds::{calculate_odds, odds_of, OddsCalculation, OddsError};
use crate::cards::cardset::CardSet;
use crate::util::array::MonomorphizedArray;
use vstd::prelude::*;

verus! {

/// The cards of a showdown: the pockets of the players and the board.
#[derive(Debug, Clone, Copy, PartialEq, Eq)]
pub struct Showdown {
    pub pockets: MonomorphizedArray<CardSet>,
    pub board: CardSet,
}

/// The odds of every player of the showdown, or what is wrong with it.
pub fn calculate_odds_from_showdown(showdown: &Showdown) -> (odds: Result<
    Vec<OddsCalculation>,
    OddsError,
>)
    ensures
        odds_of(showdown.pockets.elements(), showdown.board, odds),
{
    calculate_odds(showdown.pockets.as_slice(), showdown.board)
}

} // verus!
