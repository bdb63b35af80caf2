use vstd::prelude::*;

pub mod bitset;
pub mod bot;
pub mod data;
pub mod game;
pub mod parser;
pub mod queue;
pub mod rate;
pub mod rating;
pub mod supervisor;
pub mod text;
pub mod topic;

verus! {

/// A player's rating as shown to users: the stored value rounded to tens.
pub fn display_rating(rating: u32) -> (r: u32)
    ensures
        r == (rating + 5) / 10,
{
    ((rating as u64 + 5) / 10) as u32
}

} // verus!
