//! The heuristic estimator: the ranking heuristic of the frontier, and the
//! test that cuts a joint state which cannot be sorted within the length
//! that is left.

use itertools::Itertools;
use vstd::prelude::*;
use crate::config::Config;
use crate::order::{Permutation, State, rows};
use crate::store::MemoryStore;

verus! {

/// The rank-only pattern of each row: its first `N` registers.
pub open spec fn patterns(cfg: Config, s: Seq<Seq<u8>>) -> Seq<Seq<u8>> {
    s.map_values(|r: Seq<u8>| r.take(cfg.numbers as int))
}

/// Cuts each row down to its first `N` registers.
pub fn rank_patterns(cfg: &Config, state: &State) -> (out: State)
    requires
        forall|i: int| 0 <= i < state.len() ==> (#[trigger] rows(*state)[i]).len() >= cfg.numbers,
    ensures
        rows(out) == patterns(*cfg, rows(*state)),
{
    let mut out: State = Vec::new();
    let mut i: usize = 0;
    while i < state.len()
        invariant
            i <= state.len(),
            out.len() == i,
            forall|i: int|
                0 <= i < state.len() ==> (#[trigger] rows(*state)[i]).len() >= cfg.numbers,
            forall|k: int|
                0 <= k < i ==> (#[trigger] out@[k])@ == rows(*state)[k].take(cfg.numbers as int),
        decreases state.len() - i,
    {
        let row = &state[i];
        assert(row@ == rows(*state)[i as int]);
        let mut prefix: Permutation = Vec::new();
        let mut j: usize = 0;
        while j < cfg.numbers
            invariant
                j <= cfg.numbers <= row.len(),
                prefix@ == row@.take(j as int),
            decreases cfg.numbers - j,
        {
            prefix.push(row[j]);
            assert(row@.take(j as int + 1) =~= row@.take(j as int).push(row@[j as int]));
            j += 1;
        }
        out.push(prefix);
        i += 1;
    }
    assert(rows(out) =~= patterns(*cfg, rows(*state)));
    out
}

/// `Itertools::unique` and a count: the number of different rows.
#[verifier::external_body]
fn count_unique(items: &State) -> (n: usize)
    ensures
        n == rows(*items).to_set().len(),
{
    items.iter().unique().count()
}

/// The ranking heuristic: the number of different rank-only patterns that are
/// left in the joint state. The more patterns, the more work remains.
pub fn pattern_count(cfg: &Config, state: &State) -> (n: usize)
    requires
        forall|i: int| 0 <= i < state.len() ==> (#[trigger] rows(*state)[i]).len() >= cfg.numbers,
    ensures
        n == patterns(*cfg, rows(*state)).to_set().len(),
{
    let prefixes = rank_patterns(cfg, state);
    count_unique(&prefixes)
}

/// The table has no length for the row, or the length it
/// has, added to the length run so far, is more than the longest program
/// allowed.
pub open spec fn row_over_budget(
    table: Map<Seq<u8>, u8>,
    row: Seq<u8>,
    length: u8,
    max_len: u8,
) -> bool {
    !table.contains_key(row) || length + table[row] > max_len
}

/// Some row of the joint state cannot be sorted within the length that is
/// left.
pub open spec fn state_over_budget(
    table: Map<Seq<u8>, u8>,
    s: Seq<Seq<u8>>,
    length: u8,
    max_len: u8,
) -> bool {
    exists|i: int| 0 <= i < s.len() && row_over_budget(table, #[trigger] s[i], length, max_len)
}

/// The hard cutoff: tells whether some row of the joint state needs more
/// instructions, by the table of lower bounds, than the longest program
/// allowed leaves after `length`.
pub fn over_budget(table: &MemoryStore, state: &State, length: u8, max_len: u8) -> (cut: bool)
    ensures
        cut == state_over_budget(table@, rows(*state), length, max_len),
{
    let mut i: usize = 0;
    while i < state.len()
        invariant
            i <= state.len(),
            forall|k: int|
                0 <= k < i ==> !row_over_budget(table@, #[trigger] rows(*state)[k], length, max_len),
        decreases state.len() - i,
    {
        assert(rows(*state)[i as int] == state@[i as int]@);
        match table.get(&state[i]) {
            None => {
                return true;
            },
            Some(need) => {
                if need > max_len || length > max_len - need {
                    return true;
                }
            },
        }
        i += 1;
    }
    false
}

} // verus!
