//! Cards are ordered by rank alone: two cards of one rank compare equal
//! whatever their suits.
use vstd::prelude::*;
use vstd::std_specs::cmp::PartialOrdSpecImpl;
use core::cmp::Ordering;
use crate::card::{Card, rank_number, rank_of_card};

verus! {

/// How the ranks of two card bytes compare.
pub open spec fn rank_order(a: u8, b: u8) -> Ordering {
    let x = rank_number(rank_of_card(a));
    let y = rank_number(rank_of_card(b));
    if x < y {
        Ordering::Less
    } else if x == y {
        Ordering::Equal
    } else {
        Ordering::Greater
    }
}

impl PartialOrd for Card {
    fn partial_cmp(&self, other: &Self) -> (r: Option<Ordering>) {
        let x = self.rank().number();
        let y = other.rank().number();
        if x < y {
            Some(Ordering::Less)
        } else if x == y {
            Some(Ordering::Equal)
        } else {
            Some(Ordering::Greater)
        }
    }
}

impl PartialOrdSpecImpl for Card {
    open spec fn obeys_partial_cmp_spec() -> bool {
        true
    }

    open spec fn partial_cmp_spec(&self, other: &Self) -> Option<Ordering> {
        Some(rank_order(self@, other@))
    }
}

} // verus!
