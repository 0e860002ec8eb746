//! The initial joint state: one register file for each ordering of the
//! values, the orderings enumerated by the `itertools` crate.

use itertools::Itertools;
use vstd::prelude::*;
use crate::catalog::ConfigError;
use crate::config::Config;
use crate::machine::{valid_row, valid_rows};
use crate::order::{Permutation, State, rows, strictly_sorted, insert_sorted};

verus! {

/// The largest number of values for which the initial joint state is built:
/// it has one row for each of their orderings.
pub const MAX_NUMBERS: usize = 10;

/// `p` is an ordering of the ranks 1 to `n`: it holds each of them once.
pub open spec fn is_ordering(n: int, p: Seq<u8>) -> bool {
    &&& p.len() == n
    &&& forall|i: int| 0 <= i < p.len() ==> 1 <= #[trigger] p[i] <= n
    &&& forall|i: int, j: int| 0 <= i < j < p.len() ==> #[trigger] p[i] != #[trigger] p[j]
}

/// `p` is an arrangement of the values: it is as long as they are, holds
/// nothing else, and holds nothing twice.
pub open spec fn is_arrangement(values: Seq<u8>, p: Seq<u8>) -> bool {
    &&& p.len() == values.len()
    &&& forall|i: int| 0 <= i < p.len() ==> values.contains(#[trigger] p[i])
    &&& forall|i: int, j: int| 0 <= i < j < p.len() ==> #[trigger] p[i] != #[trigger] p[j]
}

/// `Itertools::permutations` on values that all differ, all of them taken:
/// every arrangement of the values, each once.
#[verifier::external_body]
fn all_orderings(values: &Vec<u8>) -> (perms: State)
    requires
        1 <= values.len() <= MAX_NUMBERS,
        values@.no_duplicates(),
    ensures
        forall|i: int| 0 <= i < perms.len() ==> is_arrangement(values@, #[trigger] rows(perms)[i]),
        forall|p: Seq<u8>| is_arrangement(values@, p) ==> #[trigger] rows(perms).contains(p),
        forall|i: int, j: int|
            0 <= i < j < perms.len() ==> #[trigger] rows(perms)[i] != #[trigger] rows(perms)[j],
{
    values.iter().copied().permutations(values.len()).collect()
}

/// The values from `lo` to `hi`, in increasing order.
pub fn span(lo: u8, hi: u8) -> (values: Vec<u8>)
    requires
        lo <= hi,
    ensures
        values@.len() == hi - lo + 1,
        forall|i: int| 0 <= i < values@.len() ==> #[trigger] values@[i] == lo + i,
        values@.no_duplicates(),
{
    let mut values: Vec<u8> = Vec::new();
    let mut v: u8 = lo;
    while v < hi
        invariant
            lo <= v <= hi,
            values@.len() == v - lo,
            forall|i: int| 0 <= i < values@.len() ==> #[trigger] values@[i] == lo + i,
        decreases hi - v,
    {
        values.push(v);
        v += 1;
    }
    values.push(hi);
    values
}

/// The register file that the machine starts with on the ordering `p`: the
/// values in the first registers, and in the first lanes where the machine
/// has lanes; everything else zero.
pub open spec fn initial_row(cfg: Config, p: Seq<u8>) -> Seq<u8> {
    Seq::new(
        cfg.width_spec() as nat,
        |i: int|
            if i < cfg.numbers {
                p[i]
            } else if cfg.lane_base_spec() <= i < cfg.lane_base_spec() + cfg.numbers {
                p[i - cfg.lane_base_spec()]
            } else {
                0u8
            },
    )
}

/// The row is what the machine starts with on some ordering of the values.
pub open spec fn is_initial_row(cfg: Config, r: Seq<u8>) -> bool {
    &&& r.len() == cfg.width_spec()
    &&& is_ordering(cfg.numbers as int, r.take(cfg.numbers as int))
    &&& r == initial_row(cfg, r.take(cfg.numbers as int))
}

/// Builds the register file that the machine starts with on one ordering.
pub fn build_row(cfg: &Config, p: &Permutation) -> (row: Permutation)
    requires
        cfg.wf(),
        p@.len() == cfg.numbers,
    ensures
        row@ == initial_row(*cfg, p@),
{
    let width: usize = cfg.width();
    let base: usize = cfg.lane_base();
    let mut row: Permutation = Vec::new();
    let mut i: usize = 0;
    while i < width
        invariant
            i <= width,
            cfg.wf(),
            width == cfg.width_spec(),
            base == cfg.lane_base_spec(),
            p@.len() == cfg.numbers,
            row.len() == i,
            forall|k: int| 0 <= k < i ==> row@[k] == initial_row(*cfg, p@)[k],
        decreases width - i,
    {
        let v: u8 = if i < cfg.numbers {
            p[i]
        } else if base <= i && i - base < cfg.numbers {
            p[i - base]
        } else {
            0
        };
        row.push(v);
        i += 1;
    }
    assert(row@ =~= initial_row(*cfg, p@));
    row
}

/// Builds the initial joint state of a machine: the rows that the machine
/// starts with, one for each ordering of the values, in increasing order.
/// Sizes that cannot be worked with, and more values than `MAX_NUMBERS`, are
/// refused.
pub fn initial_state(cfg: &Config) -> (res: Result<State, ConfigError>)
    ensures
        res.is_ok() <==> (cfg.wf() && cfg.numbers <= MAX_NUMBERS),
        match res {
            Ok(state) => {
                &&& strictly_sorted(rows(state))
                &&& valid_rows(*cfg, rows(state))
                &&& forall|r: Seq<u8>|
                    #![trigger rows(state).contains(r)]
                    rows(state).contains(r) <==> is_initial_row(*cfg, r)
            },
            Err(e) => e == ConfigError::BadSizes,
        },
{
    if !cfg.is_wf() || cfg.numbers > MAX_NUMBERS {
        return Err(ConfigError::BadSizes);
    }
    let ranks = span(1, cfg.numbers as u8);
    let perms = all_orderings(&ranks);
    proof {
        let n = cfg.numbers as int;
        assert forall|p: Seq<u8>| is_arrangement(ranks@, p) <==> is_ordering(n, p) by {
            if is_arrangement(ranks@, p) {
                assert forall|i: int| 0 <= i < p.len() implies 1 <= #[trigger] p[i] <= n by {
                    assert(ranks@.contains(p[i]));
                    let j = choose|j: int| 0 <= j < ranks@.len() && ranks@[j] == p[i];
                }
            }
            if is_ordering(n, p) {
                assert forall|i: int| 0 <= i < p.len() implies ranks@.contains(#[trigger] p[i]) by {
                    assert(ranks@[p[i] - 1] == p[i]);
                }
            }
        }
        assert forall|i: int| 0 <= i < perms.len() implies is_ordering(
            n,
            #[trigger] rows(perms)[i],
        ) by {
            assert(is_arrangement(ranks@, rows(perms)[i]));
        }
        assert forall|p: Seq<u8>| is_ordering(n, p) implies #[trigger] rows(perms).contains(p) by {
            assert(is_arrangement(ranks@, p));
        }
    }
    let mut state: State = Vec::new();
    let mut idx: usize = 0;
    while idx < perms.len()
        invariant
            idx <= perms.len(),
            cfg.wf(),
            forall|i: int|
                0 <= i < perms.len() ==> is_ordering(cfg.numbers as int, #[trigger] rows(perms)[i]),
            strictly_sorted(rows(state)),
            forall|r: Seq<u8>|
                #![trigger rows(state).contains(r)]
                rows(state).contains(r) <==> exists|i: int|
                    0 <= i < idx && r == initial_row(*cfg, #[trigger] rows(perms)[i]),
        decreases perms.len() - idx,
    {
        assert(is_ordering(cfg.numbers as int, rows(perms)[idx as int]));
        let row = build_row(cfg, &perms[idx]);
        insert_sorted(&mut state, row);
        idx += 1;
    }
    proof {
        let n = cfg.numbers as int;
        assert forall|r: Seq<u8>|
            #![trigger rows(state).contains(r)]
            rows(state).contains(r) <==> is_initial_row(*cfg, r) by {
            if rows(state).contains(r) {
                let i = choose|i: int|
                    0 <= i < idx && r == initial_row(*cfg, #[trigger] rows(perms)[i]);
                let p = rows(perms)[i];
                assert(r.take(n) =~= p);
            }
            if is_initial_row(*cfg, r) {
                let p = r.take(n);
                assert(rows(perms).contains(p));
                let i = choose|i: int| 0 <= i < rows(perms).len() && rows(perms)[i] == p;
                assert(r == initial_row(*cfg, rows(perms)[i]));
            }
        }
        assert forall|k: int| 0 <= k < rows(state).len() implies valid_row(
            *cfg,
            #[trigger] rows(state)[k],
        ) by {
            let r = rows(state)[k];
            assert(rows(state).contains(r));
            let p = r.take(n);
            assert forall|i: int| 0 <= i < r.len() implies #[trigger] r[i] <= cfg.numbers by {
                if i < n {
                    assert(r[i] == p[i]);
                } else if cfg.lane_base_spec() <= i < cfg.lane_base_spec() + n {
                    assert(r[i] == p[i - cfg.lane_base_spec()]);
                }
            }
        }
    }
    Ok(state)
}

} // verus!
