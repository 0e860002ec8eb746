//! The viability filter and the goal test.
//!
//! An instruction of the scalar machine copies a register or leaves it: it
//! never brings back a rank that no general register holds any more. A joint
//! state with such a row can never be sorted, and is cut.

use vstd::prelude::*;
use crate::config::Config;
use crate::order::{Permutation, State, rows, same_members};

verus! {

/// Some general register of the row holds the rank `n`.
pub open spec fn holds_rank(cfg: Config, row: Seq<u8>, n: int) -> bool {
    exists|i: int| 0 <= i < cfg.regs_spec() && #[trigger] row[i] == n
}

/// Every rank from 1 to `N` is still in some general register of the row.
pub open spec fn row_viable(cfg: Config, row: Seq<u8>) -> bool {
    forall|n: int| 1 <= n <= cfg.numbers ==> #[trigger] holds_rank(cfg, row, n)
}

/// Every row of the joint state is viable.
pub open spec fn state_viable(cfg: Config, s: Seq<Seq<u8>>) -> bool {
    forall|i: int| 0 <= i < s.len() ==> row_viable(cfg, #[trigger] s[i])
}

/// The first `N` registers of the row hold the ranks 1 to `N` in order.
pub open spec fn row_sorted(cfg: Config, row: Seq<u8>) -> bool {
    forall|k: int| 0 <= k < cfg.numbers ==> #[trigger] row[k] == k + 1
}

/// Every row of the joint state is sorted.
pub open spec fn state_goal(cfg: Config, s: Seq<Seq<u8>>) -> bool {
    forall|i: int| 0 <= i < s.len() ==> row_sorted(cfg, #[trigger] s[i])
}

/// Tells whether the rank `n` is in one of the general registers of the row.
pub fn has_rank(cfg: &Config, perm: &Permutation, n: u8) -> (b: bool)
    requires
        cfg.wf(),
        perm@.len() >= cfg.regs_spec(),
    ensures
        b == holds_rank(*cfg, perm@, n as int),
{
    let regs: usize = cfg.regs();
    let mut i: usize = 0;
    while i < regs
        invariant
            i <= regs,
            regs == cfg.regs_spec(),
            perm@.len() >= regs,
            forall|k: int| 0 <= k < i ==> perm@[k] != n,
        decreases regs - i,
    {
        if perm[i] == n {
            return true;
        }
        i += 1;
    }
    false
}

/// Tells whether a row can still be sorted: whether no rank has been lost.
pub fn viable_perm(cfg: &Config, perm: &Permutation) -> (b: bool)
    requires
        cfg.wf(),
        perm@.len() >= cfg.regs_spec(),
    ensures
        b == row_viable(*cfg, perm@),
{
    let mut n: usize = 1;
    while n <= cfg.numbers
        invariant
            1 <= n <= cfg.numbers + 1,
            cfg.wf(),
            perm@.len() >= cfg.regs_spec(),
            forall|m: int| 1 <= m < n ==> #[trigger] holds_rank(*cfg, perm@, m),
        decreases cfg.numbers + 1 - n,
    {
        if !has_rank(cfg, perm, n as u8) {
            return false;
        }
        n += 1;
    }
    true
}

/// The viability filter: tells whether every row can still be sorted.
pub fn viable(cfg: &Config, state: &State) -> (b: bool)
    requires
        cfg.wf(),
        forall|i: int| 0 <= i < state.len() ==> (#[trigger] rows(*state)[i]).len() >= cfg.regs_spec(),
    ensures
        b == state_viable(*cfg, rows(*state)),
{
    let mut i: usize = 0;
    while i < state.len()
        invariant
            i <= state.len(),
            cfg.wf(),
            forall|i: int|
                0 <= i < state.len() ==> (#[trigger] rows(*state)[i]).len() >= cfg.regs_spec(),
            forall|k: int| 0 <= k < i ==> row_viable(*cfg, #[trigger] rows(*state)[k]),
        decreases state.len() - i,
    {
        assert(rows(*state)[i as int] == state@[i as int]@);
        if !viable_perm(cfg, &state[i]) {
            return false;
        }
        i += 1;
    }
    true
}

/// Tells whether the first `N` registers of a row hold 1 to `N` in order.
pub fn is_sorted_perm(cfg: &Config, perm: &Permutation) -> (b: bool)
    requires
        cfg.wf(),
        perm@.len() >= cfg.numbers,
    ensures
        b == row_sorted(*cfg, perm@),
{
    let mut k: usize = 0;
    while k < cfg.numbers
        invariant
            k <= cfg.numbers,
            cfg.wf(),
            perm@.len() >= cfg.numbers,
            forall|j: int| 0 <= j < k ==> #[trigger] perm@[j] == j + 1,
        decreases cfg.numbers - k,
    {
        if perm[k] as usize != k + 1 {
            return false;
        }
        k += 1;
    }
    true
}

/// The goal test: tells whether the program that led here sorts every input
/// ordering.
pub fn is_goal(cfg: &Config, state: &State) -> (b: bool)
    requires
        cfg.wf(),
        forall|i: int| 0 <= i < state.len() ==> (#[trigger] rows(*state)[i]).len() >= cfg.numbers,
    ensures
        b == state_goal(*cfg, rows(*state)),
{
    let mut i: usize = 0;
    while i < state.len()
        invariant
            i <= state.len(),
            cfg.wf(),
            forall|i: int|
                0 <= i < state.len() ==> (#[trigger] rows(*state)[i]).len() >= cfg.numbers,
            forall|k: int| 0 <= k < i ==> row_sorted(*cfg, #[trigger] rows(*state)[k]),
        decreases state.len() - i,
    {
        assert(rows(*state)[i as int] == state@[i as int]@);
        if !is_sorted_perm(cfg, &state[i]) {
            return false;
        }
        i += 1;
    }
    true
}

/// A joint state with a row from whose general registers some rank is missing
/// is not viable.
pub proof fn lemma_missing_rank_is_cut(cfg: Config, s: Seq<Seq<u8>>, i: int, n: int)
    requires
        0 <= i < s.len(),
        1 <= n <= cfg.numbers,
        forall|k: int| 0 <= k < cfg.regs_spec() ==> s[i][k] != n,
    ensures
        !state_viable(cfg, s),
{
    assert(!holds_rank(cfg, s[i], n));
    assert(!row_viable(cfg, s[i]));
}

/// Viability does not depend on the order of the rows, nor on how often one
/// occurs.
pub proof fn lemma_viable_of_members(cfg: Config, s: Seq<Seq<u8>>, t: Seq<Seq<u8>>)
    requires
        same_members(s, t),
    ensures
        state_viable(cfg, s) == state_viable(cfg, t),
{
    if state_viable(cfg, s) {
        assert forall|i: int| 0 <= i < t.len() implies row_viable(cfg, #[trigger] t[i]) by {
            assert(t.contains(t[i]));
            let j = choose|j: int| 0 <= j < s.len() && s[j] == t[i];
            assert(row_viable(cfg, s[j]));
        }
    }
    if state_viable(cfg, t) {
        assert forall|i: int| 0 <= i < s.len() implies row_viable(cfg, #[trigger] s[i]) by {
            assert(s.contains(s[i]));
            let j = choose|j: int| 0 <= j < t.len() && t[j] == s[i];
            assert(row_viable(cfg, t[j]));
        }
    }
}

/// The goal test does not depend on the order of the rows, nor on how often
/// one occurs.
pub proof fn lemma_goal_of_members(cfg: Config, s: Seq<Seq<u8>>, t: Seq<Seq<u8>>)
    requires
        same_members(s, t),
    ensures
        state_goal(cfg, s) == state_goal(cfg, t),
{
    if state_goal(cfg, s) {
        assert forall|i: int| 0 <= i < t.len() implies row_sorted(cfg, #[trigger] t[i]) by {
            assert(t.contains(t[i]));
            let j = choose|j: int| 0 <= j < s.len() && s[j] == t[i];
            assert(row_sorted(cfg, s[j]));
        }
    }
    if state_goal(cfg, t) {
        assert forall|i: int| 0 <= i < s.len() implies row_sorted(cfg, #[trigger] s[i]) by {
            assert(s.contains(s[i]));
            let j = choose|j: int| 0 <= j < t.len() && t[j] == s[i];
            assert(row_sorted(cfg, t[j]));
        }
    }
}

/// A sorted row holds every rank, so a goal state is viable.
pub proof fn lemma_goal_is_viable(cfg: Config, s: Seq<Seq<u8>>)
    requires
        state_goal(cfg, s),
    ensures
        state_viable(cfg, s),
{
    assert forall|i: int| 0 <= i < s.len() implies row_viable(cfg, #[trigger] s[i]) by {
        assert(row_sorted(cfg, s[i]));
        assert forall|n: int| 1 <= n <= cfg.numbers implies #[trigger] holds_rank(cfg, s[i], n) by {
            assert(s[i][n - 1] == n);
        }
    }
}

} // verus!
