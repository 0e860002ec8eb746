//! The table of swap distances: for each ordering of the values the least
//! number of exchanges of two values that sort it, found by a breadth-first
//! search from the sorted ordering, level by level.

use vstd::prelude::*;
use crate::initial::{MAX_NUMBERS, is_ordering};
use crate::machine::copy_row;
use crate::order::{Permutation, State, rows};
use crate::store::MemoryStore;

verus! {

/// An exchange of two places: the first lies before the second, and both lie
/// among the first `n`.
pub open spec fn is_swap(n: int, w: (usize, usize)) -> bool {
    w.0 < w.1 < n
}

/// The ordering with the values at two places exchanged.
pub open spec fn swap_spec(p: Seq<u8>, w: (usize, usize)) -> Seq<u8> {
    p.update(w.0 as int, p[w.1 as int]).update(w.1 as int, p[w.0 as int])
}

/// What a sequence of exchanges makes of an ordering.
pub open spec fn run_swaps(p: Seq<u8>, ws: Seq<(usize, usize)>) -> Seq<u8>
    decreases ws.len(),
{
    if ws.len() == 0 {
        p
    } else {
        swap_spec(run_swaps(p, ws.drop_last()), ws.last())
    }
}

/// The sorted ordering of `n` values.
pub open spec fn sorted_ordering(n: int) -> Seq<u8> {
    Seq::new(n as nat, |i: int| (i + 1) as u8)
}

/// The exchanges are exchanges among `n` places, and they sort the ordering.
pub open spec fn sorts_by(n: int, p: Seq<u8>, ws: Seq<(usize, usize)>) -> bool {
    &&& p.len() == n
    &&& forall|k: int| 0 <= k < ws.len() ==> is_swap(n, #[trigger] ws[k])
    &&& run_swaps(p, ws) == sorted_ordering(n)
}

/// Some sequence of `d` exchanges sorts the ordering.
pub open spec fn swaps_reach(n: int, p: Seq<u8>, d: int) -> bool {
    exists|ws: Seq<(usize, usize)>| ws.len() == d && #[trigger] sorts_by(n, p, ws)
}

/// Every entry of the table is true: some sequence of as many exchanges as
/// the entry says sorts its ordering.
pub open spec fn swaps_sound(n: int, table: Map<Seq<u8>, u8>, bound: int) -> bool {
    forall|p: Seq<u8>| #[trigger]
        table.contains_key(p) ==> p.len() == n && table[p] <= bound && swaps_reach(
            n,
            p,
            table[p] as int,
        )
}

/// No entry of the table is too large, and none is missing: an ordering that
/// at most `depth` exchanges sort has an entry, and the entry is not larger
/// than the number of those exchanges.
pub open spec fn swaps_complete(n: int, table: Map<Seq<u8>, u8>, depth: int) -> bool {
    forall|p: Seq<u8>, ws: Seq<(usize, usize)>|
        #[trigger] sorts_by(n, p, ws) && ws.len() <= depth ==> table.contains_key(p) && table[p]
            <= ws.len()
}

/// An exchange done twice is undone.
pub proof fn lemma_swap_twice(p: Seq<u8>, w: (usize, usize))
    requires
        w.0 < p.len(),
        w.1 < p.len(),
    ensures
        swap_spec(swap_spec(p, w), w) == p,
        swap_spec(p, w).len() == p.len(),
{
    assert(swap_spec(swap_spec(p, w), w) =~= p);
}

/// Running exchanges is running the first one and then the rest.
pub proof fn lemma_run_swaps_cons(p: Seq<u8>, w: (usize, usize), rest: Seq<(usize, usize)>)
    ensures
        run_swaps(p, seq![w] + rest) == run_swaps(swap_spec(p, w), rest),
    decreases rest.len(),
{
    let whole = seq![w] + rest;
    let next = swap_spec(p, w);
    if rest.len() == 0 {
        assert(whole.drop_last() =~= Seq::<(usize, usize)>::empty());
        assert(whole.last() == w);
        assert(run_swaps(p, whole.drop_last()) == p);
        assert(run_swaps(p, whole) == next);
        assert(run_swaps(next, rest) == next);
    } else {
        assert(whole.drop_last() =~= seq![w] + rest.drop_last());
        assert(whole.last() == rest.last());
        lemma_run_swaps_cons(p, w, rest.drop_last());
        assert(run_swaps(p, whole) == swap_spec(run_swaps(p, whole.drop_last()), rest.last()));
        assert(run_swaps(next, rest) == swap_spec(
            run_swaps(next, rest.drop_last()),
            rest.last(),
        ));
    }
}

/// An ordering that one exchange turns into one that `d` exchanges sort is
/// sorted by `d + 1` exchanges.
pub proof fn lemma_swaps_step(n: int, p: Seq<u8>, w: (usize, usize), d: int)
    requires
        p.len() == n,
        is_swap(n, w),
        swaps_reach(n, swap_spec(p, w), d),
    ensures
        swaps_reach(n, p, d + 1),
{
    let rest = choose|ws: Seq<(usize, usize)>|
        ws.len() == d && #[trigger] sorts_by(n, swap_spec(p, w), ws);
    let whole = seq![w] + rest;
    lemma_run_swaps_cons(p, w, rest);
    assert forall|k: int| 0 <= k < whole.len() implies is_swap(n, #[trigger] whole[k]) by {
        if k > 0 {
            assert(whole[k] == rest[k - 1]);
        }
    }
    assert(sorts_by(n, p, whole));
}

/// What is left of the exchanges that sort an ordering, after the first one,
/// sorts what that exchange makes of the ordering.
pub proof fn lemma_swaps_unroll(n: int, p: Seq<u8>, ws: Seq<(usize, usize)>)
    requires
        ws.len() > 0,
        sorts_by(n, p, ws),
    ensures
        is_swap(n, ws[0]),
        sorts_by(n, swap_spec(p, ws[0]), ws.skip(1)),
{
    let w = ws[0];
    let rest = ws.skip(1);
    assert(ws =~= seq![w] + rest);
    lemma_run_swaps_cons(p, w, rest);
    assert forall|k: int| 0 <= k < rest.len() implies is_swap(n, #[trigger] rest[k]) by {
        assert(rest[k] == ws[k + 1]);
    }
}

/// An ordering holds every rank: as many different ranks as there are
/// places leave none out.
pub proof fn lemma_ordering_holds_all(n: int, p: Seq<u8>, v: int)
    requires
        0 <= n <= 255,
        is_ordering(n, p),
        1 <= v <= n,
    ensures
        exists|j: int| 0 <= j < p.len() && #[trigger] p[j] == v,
    decreases n,
{
    if exists|j: int| 0 <= j < p.len() && #[trigger] p[j] == n {
        let at = choose|j: int| 0 <= j < p.len() && #[trigger] p[j] == n;
        if v != n {
            let q = p.remove(at);
            assert(is_ordering(n - 1, q)) by {
                assert forall|i: int| 0 <= i < q.len() implies 1 <= #[trigger] q[i] <= n - 1 by {
                    if i < at {
                        assert(q[i] == p[i]);
                    } else {
                        assert(q[i] == p[i + 1]);
                    }
                }
                assert forall|i: int, j: int| 0 <= i < j < q.len() implies #[trigger] q[i]
                    != #[trigger] q[j] by {
                    let a = if i < at { i } else { i + 1 };
                    let b = if j < at { j } else { j + 1 };
                    assert(q[i] == p[a]);
                    assert(q[j] == p[b]);
                }
            }
            lemma_ordering_holds_all(n - 1, q, v);
            let j = choose|j: int| 0 <= j < q.len() && #[trigger] q[j] == v;
            let b = if j < at { j } else { j + 1 };
            assert(p[b] == v);
        }
    } else {
        // without the highest rank there are more places than ranks
        let q = p.drop_last();
        assert(is_ordering(n - 1, q)) by {
            assert forall|i: int| 0 <= i < q.len() implies 1 <= #[trigger] q[i] <= n - 1 by {
                assert(q[i] == p[i]);
                assert(p[i] != n);
            }
            assert forall|i: int, j: int| 0 <= i < j < q.len() implies #[trigger] q[i]
                != #[trigger] q[j] by {
                assert(q[i] == p[i]);
                assert(q[j] == p[j]);
            }
        }
        let last = p[n - 1];
        assert(last != n);
        lemma_ordering_holds_all(n - 1, q, last as int);
        let j = choose|j: int| 0 <= j < q.len() && #[trigger] q[j] == last;
        assert(p[j] == p[n - 1]);
    }
}

/// An exchange makes an ordering of an ordering.
pub proof fn lemma_swap_keeps_ordering(n: int, p: Seq<u8>, w: (usize, usize))
    requires
        is_ordering(n, p),
        is_swap(n, w),
    ensures
        is_ordering(n, swap_spec(p, w)),
{
    let q = swap_spec(p, w);
    assert forall|i: int| 0 <= i < q.len() implies 1 <= #[trigger] q[i] <= n by {
        assert(1 <= p[w.0 as int] <= n);
        assert(1 <= p[w.1 as int] <= n);
        assert(1 <= p[i] <= n);
    }
    assert forall|i: int, j: int| 0 <= i < j < q.len() implies #[trigger] q[i] != #[trigger] q[j] by {
        let a = if i == w.0 { w.1 as int } else if i == w.1 { w.0 as int } else { i };
        let b = if j == w.0 { w.1 as int } else if j == w.1 { w.0 as int } else { j };
        assert(q[i] == p[a]);
        assert(q[j] == p[b]);
        if a < b {
            assert(p[a] != p[b]);
        } else {
            assert(p[b] != p[a]);
        }
    }
}

/// What exchanges can sort is an ordering.
pub proof fn lemma_sorted_by_is_ordering(n: int, p: Seq<u8>, ws: Seq<(usize, usize)>)
    requires
        0 <= n <= 255,
        sorts_by(n, p, ws),
    ensures
        is_ordering(n, p),
    decreases ws.len(),
{
    if ws.len() == 0 {
        assert(p == sorted_ordering(n));
    } else {
        lemma_swaps_unroll(n, p, ws);
        let w = ws[0];
        lemma_sorted_by_is_ordering(n, swap_spec(p, w), ws.skip(1));
        lemma_swap_keeps_ordering(n, swap_spec(p, w), w);
        lemma_swap_twice(p, w);
    }
}

/// Every ordering whose first `k` places are in order is sorted by at most
/// `n - k` exchanges: each brings one more rank to its place.
pub proof fn lemma_ordering_is_sortable(n: int, p: Seq<u8>, k: int)
    requires
        0 <= k <= n <= 255,
        is_ordering(n, p),
        forall|i: int| 0 <= i < k ==> #[trigger] p[i] == i + 1,
    ensures
        exists|ws: Seq<(usize, usize)>| ws.len() <= n - k && #[trigger] sorts_by(n, p, ws),
    decreases n - k,
{
    if k == n {
        let none = Seq::<(usize, usize)>::empty();
        assert(p =~= sorted_ordering(n));
        assert(sorts_by(n, p, none));
    } else if p[k] == k + 1 {
        lemma_ordering_is_sortable(n, p, k + 1);
    } else {
        lemma_ordering_holds_all(n, p, k + 1);
        let j = choose|j: int| 0 <= j < p.len() && #[trigger] p[j] == k + 1;
        assert(j > k) by {
            if j < k {
                assert(p[j] == j + 1);
            }
        }
        let w = (k as usize, j as usize);
        let q = swap_spec(p, w);
        lemma_swap_keeps_ordering(n, p, w);
        assert forall|i: int| 0 <= i < k + 1 implies #[trigger] q[i] == i + 1 by {
            if i < k {
                assert(q[i] == p[i]);
            }
        }
        lemma_ordering_is_sortable(n, q, k + 1);
        let rest = choose|ws: Seq<(usize, usize)>|
            ws.len() <= n - (k + 1) && #[trigger] sorts_by(n, q, ws);
        let whole = seq![w] + rest;
        lemma_run_swaps_cons(p, w, rest);
        assert forall|t: int| 0 <= t < whole.len() implies is_swap(n, #[trigger] whole[t]) by {
            if t > 0 {
                assert(whole[t] == rest[t - 1]);
            }
        }
        assert(sorts_by(n, p, whole));
    }
}

/// A table that is complete up to `n` exchanges is complete: it has an entry
/// for every ordering, and no sequence of exchanges that sorts an ordering is
/// shorter than its entry.
pub proof fn lemma_swaps_all(n: int, table: Map<Seq<u8>, u8>)
    requires
        0 <= n <= 255,
        swaps_sound(n, table, n),
        swaps_complete(n, table, n),
    ensures
        forall|p: Seq<u8>| #[trigger] table.contains_key(p) <==> is_ordering(n, p),
        forall|p: Seq<u8>, ws: Seq<(usize, usize)>|
            #[trigger] sorts_by(n, p, ws) ==> table.contains_key(p) && table[p] <= ws.len(),
{
    assert forall|p: Seq<u8>| #[trigger] table.contains_key(p) <==> is_ordering(n, p) by {
        if table.contains_key(p) {
            let ws = choose|ws: Seq<(usize, usize)>|
                ws.len() == table[p] as int && #[trigger] sorts_by(n, p, ws);
            lemma_sorted_by_is_ordering(n, p, ws);
        }
        if is_ordering(n, p) {
            lemma_ordering_is_sortable(n, p, 0);
            let ws = choose|ws: Seq<(usize, usize)>| ws.len() <= n && #[trigger] sorts_by(n, p, ws);
            assert(table.contains_key(p));
        }
    }
    assert forall|p: Seq<u8>, ws: Seq<(usize, usize)>| #[trigger] sorts_by(n, p, ws) implies table.contains_key(
        p,
    ) && table[p] <= ws.len() by {
        lemma_sorted_by_is_ordering(n, p, ws);
        assert(table.contains_key(p));
    }
}

/// The table `b` holds all that `a` holds, and what it holds more has the
/// length `d`.
pub open spec fn swaps_grow(a: Map<Seq<u8>, u8>, b: Map<Seq<u8>, u8>, d: int) -> bool {
    &&& forall|p: Seq<u8>| #[trigger] a.contains_key(p) ==> b.contains_key(p) && b[p] == a[p]
    &&& forall|p: Seq<u8>| #[trigger] b.contains_key(p) && !a.contains_key(p) ==> b[p] == d
}

/// `level` lists the orderings whose entry is `d`.
pub open spec fn swaps_level(table: Map<Seq<u8>, u8>, level: Seq<Seq<u8>>, d: int) -> bool {
    &&& forall|i: int|
        0 <= i < level.len() ==> table.contains_key(#[trigger] level[i]) && table[level[i]] == d
    &&& forall|p: Seq<u8>| #[trigger] table.contains_key(p) && table[p] == d ==> level.contains(p)
}

/// Every ordering that one exchange turns into `r` has an entry.
pub open spec fn swaps_covered(n: int, table: Map<Seq<u8>, u8>, r: Seq<u8>) -> bool {
    forall|w: (usize, usize)| is_swap(n, w) ==> table.contains_key(#[trigger] swap_spec(r, w))
}

/// Exchanges the values at two places of an ordering.
pub fn swap_places(p: &Permutation, i: usize, j: usize) -> (out: Permutation)
    requires
        i < p.len(),
        j < p.len(),
    ensures
        out@ == swap_spec(p@, (i, j)),
{
    let mut out = copy_row(p);
    let a: u8 = p[i];
    let b: u8 = p[j];
    out.set(i, b);
    out.set(j, a);
    out
}

/// Takes one ordering of the current level through every exchange: every
/// ordering that comes of it and has no entry yet gets the next length and
/// joins the next level.
fn expand_ordering(n: usize, r: &Permutation, k: u8, table: &mut MemoryStore, next: &mut State)
    requires
        r@.len() == n,
        swaps_reach(n as int, r@, k as int),
        k < 255,
        swaps_sound(n as int, old(table)@, k + 1),
        swaps_level(old(table)@, rows(*old(next)), k + 1),
    ensures
        swaps_sound(n as int, final(table)@, k + 1),
        swaps_level(final(table)@, rows(*final(next)), k + 1),
        swaps_grow(old(table)@, final(table)@, k + 1),
        swaps_covered(n as int, final(table)@, r@),
{
    let mut i: usize = 0;
    while i < n
        invariant
            i <= n,
            r@.len() == n,
            swaps_reach(n as int, r@, k as int),
            k < 255,
            swaps_sound(n as int, table@, k + 1),
            swaps_level(table@, rows(*next), k + 1),
            swaps_grow(old(table)@, table@, k + 1),
            forall|w: (usize, usize)|
                is_swap(n as int, w) && w.0 < i ==> table@.contains_key(
                    #[trigger] swap_spec(r@, w),
                ),
        decreases n - i,
    {
        let mut j: usize = i + 1;
        while j < n
            invariant
                i < j <= n,
                r@.len() == n,
                swaps_reach(n as int, r@, k as int),
                k < 255,
                swaps_sound(n as int, table@, k + 1),
                swaps_level(table@, rows(*next), k + 1),
                swaps_grow(old(table)@, table@, k + 1),
                forall|w: (usize, usize)|
                    is_swap(n as int, w) && (w.0 < i || (w.0 == i && w.1 < j))
                        ==> table@.contains_key(#[trigger] swap_spec(r@, w)),
            decreases n - j,
        {
            let p = swap_places(r, i, j);
            let ghost before = table@;
            let ghost listed = rows(*next);
            if table.get(&p).is_none() {
                table.insert(copy_row(&p), k + 1);
                next.push(copy_row(&p));
                proof {
                    lemma_swap_twice(r@, (i, j));
                    lemma_swaps_step(n as int, p@, (i, j), k as int);
                    let after = table@;
                    let more = rows(*next);
                    assert(more =~= listed.push(p@));
                    assert forall|q: Seq<u8>|
                        #[trigger] after.contains_key(q) && after[q] == k + 1 implies more.contains(
                        q,
                    ) by {
                        if q == p@ {
                            assert(more[listed.len() as int] == q);
                        } else {
                            assert(before.contains_key(q));
                            assert(listed.contains(q));
                            let t = choose|t: int| 0 <= t < listed.len() && listed[t] == q;
                            assert(more[t] == q);
                        }
                    }
                    assert forall|t: int| 0 <= t < more.len() implies after.contains_key(
                        #[trigger] more[t],
                    ) && after[more[t]] == k + 1 by {
                        if t < listed.len() {
                            assert(more[t] == listed[t]);
                            assert(before.contains_key(listed[t]));
                        }
                    }
                }
            }
            proof {
                assert forall|w: (usize, usize)|
                    is_swap(n as int, w) && (w.0 < i || (w.0 == i && w.1 < j + 1)) implies table@.contains_key(
                    #[trigger] swap_spec(r@, w),
                ) by {
                    if w.0 == i && w.1 == j {
                        assert(w == (i, j));
                    } else {
                        assert(before.contains_key(swap_spec(r@, w)));
                    }
                }
            }
            j += 1;
        }
        i += 1;
    }
}

/// Builds the next level of the table.
fn next_swaps(n: usize, level: &State, k: u8, table: &mut MemoryStore) -> (next: State)
    requires
        k < 255,
        swaps_sound(n as int, old(table)@, k as int),
        swaps_level(old(table)@, rows(*level), k as int),
    ensures
        swaps_sound(n as int, final(table)@, k + 1),
        swaps_level(final(table)@, rows(next), k + 1),
        swaps_grow(old(table)@, final(table)@, k + 1),
        forall|f: int|
            0 <= f < level.len() ==> swaps_covered(n as int, final(table)@, #[trigger] rows(*level)[f]),
{
    let mut next: State = Vec::new();
    let mut fi: usize = 0;
    while fi < level.len()
        invariant
            fi <= level.len(),
            k < 255,
            swaps_sound(n as int, old(table)@, k as int),
            swaps_level(old(table)@, rows(*level), k as int),
            swaps_sound(n as int, table@, k + 1),
            swaps_level(table@, rows(next), k + 1),
            swaps_grow(old(table)@, table@, k + 1),
            forall|f: int|
                0 <= f < fi ==> swaps_covered(n as int, table@, #[trigger] rows(*level)[f]),
        decreases level.len() - fi,
    {
        let r = &level[fi];
        let ghost before = table@;
        proof {
            assert(r@ == rows(*level)[fi as int]);
            assert(old(table)@.contains_key(r@));
            assert(before.contains_key(r@) && before[r@] == k);
        }
        expand_ordering(n, r, k, table, &mut next);
        proof {
            let after = table@;
            assert(swaps_grow(old(table)@, after, k + 1)) by {
                assert forall|p: Seq<u8>| #[trigger] old(table)@.contains_key(p) implies after.contains_key(
                    p,
                ) && after[p] == old(table)@[p] by {
                    assert(before.contains_key(p));
                }
                assert forall|p: Seq<u8>|
                    #[trigger] after.contains_key(p) && !old(table)@.contains_key(p) implies after[p]
                    == k + 1 by {
                    if before.contains_key(p) {
                        assert(after[p] == before[p]);
                    }
                }
            }
            assert forall|f: int| 0 <= f < fi + 1 implies swaps_covered(
                n as int,
                after,
                #[trigger] rows(*level)[f],
            ) by {
                if f < fi {
                    assert(swaps_covered(n as int, before, rows(*level)[f]));
                    assert forall|w: (usize, usize)| is_swap(n as int, w) implies after.contains_key(
                        #[trigger] swap_spec(rows(*level)[f], w),
                    ) by {
                        assert(before.contains_key(swap_spec(rows(*level)[f], w)));
                    }
                }
            }
        }
        fi += 1;
    }
    next
}

/// Once a level is built the table is complete one exchange further.
pub proof fn lemma_swaps_level_complete(
    n: int,
    t0: Map<Seq<u8>, u8>,
    t1: Map<Seq<u8>, u8>,
    level: Seq<Seq<u8>>,
    k: int,
)
    requires
        0 <= k,
        swaps_sound(n, t0, k),
        swaps_complete(n, t0, k),
        swaps_level(t0, level, k),
        swaps_sound(n, t1, k + 1),
        swaps_grow(t0, t1, k + 1),
        forall|f: int| 0 <= f < level.len() ==> swaps_covered(n, t1, #[trigger] level[f]),
    ensures
        swaps_complete(n, t1, k + 1),
{
    assert forall|p: Seq<u8>, ws: Seq<(usize, usize)>|
        #[trigger] sorts_by(n, p, ws) && ws.len() <= k + 1 implies t1.contains_key(p) && t1[p]
        <= ws.len() by {
        if ws.len() <= k {
            assert(t0.contains_key(p) && t0[p] <= ws.len());
        } else {
            lemma_swaps_unroll(n, p, ws);
            let w = ws[0];
            let rest = ws.skip(1);
            let r = swap_spec(p, w);
            assert(sorts_by(n, r, rest));
            assert(t0.contains_key(r) && t0[r] <= k);
            lemma_swap_twice(p, w);
            if t0[r] == k {
                assert(level.contains(r));
                let fi = choose|fi: int| 0 <= fi < level.len() && level[fi] == r;
                assert(swaps_covered(n, t1, level[fi]));
                assert(t1.contains_key(swap_spec(r, w)));
            } else {
                let j = t0[r] as int;
                lemma_swaps_step(n, p, w, j);
                let shorter = choose|shorter: Seq<(usize, usize)>|
                    shorter.len() == j + 1 && #[trigger] sorts_by(n, p, shorter);
                assert(t0.contains_key(p) && t0[p] <= shorter.len());
            }
        }
    }
}

/// Builds the table of swap distances for `n` values: for every ordering
/// of the ranks 1 to `n` the least number of exchanges of two values that
/// sort it. More values than `MAX_NUMBERS`, and none, get no table.
pub fn swap_distances(n: usize) -> (res: Option<MemoryStore>)
    ensures
        res.is_some() <==> 1 <= n <= MAX_NUMBERS,
        match res {
            Some(table) => {
                &&& swaps_sound(n as int, table@, n as int)
                &&& forall|p: Seq<u8>| #[trigger] table@.contains_key(p) <==> is_ordering(n as int, p)
                &&& forall|p: Seq<u8>, ws: Seq<(usize, usize)>|
                    #[trigger] sorts_by(n as int, p, ws) ==> table@.contains_key(p) && table@[p]
                        <= ws.len()
            },
            None => true,
        },
{
    if n < 1 || n > MAX_NUMBERS {
        return None;
    }
    let mut first: Permutation = Vec::new();
    let mut i: usize = 0;
    while i < n
        invariant
            i <= n <= MAX_NUMBERS,
            first.len() == i,
            forall|k: int| 0 <= k < i ==> first@[k] == (k + 1) as u8,
        decreases n - i,
    {
        first.push((i + 1) as u8);
        i += 1;
    }
    assert(first@ =~= sorted_ordering(n as int));
    let mut table = MemoryStore::new();
    let mut level: State = Vec::new();
    table.insert(copy_row(&first), 0);
    level.push(first);
    proof {
        let start = sorted_ordering(n as int);
        assert(rows(level) =~= seq![start]);
        let none = Seq::<(usize, usize)>::empty();
        assert(sorts_by(n as int, start, none));
        assert forall|p: Seq<u8>, ws: Seq<(usize, usize)>|
            #[trigger] sorts_by(n as int, p, ws) && ws.len() <= 0 implies table@.contains_key(p)
            && table@[p] <= ws.len() by {
            assert(run_swaps(p, ws) == p);
        }
        assert forall|p: Seq<u8>| #[trigger] table@.contains_key(p) && table@[p] == 0 implies rows(
            level,
        ).contains(p) by {
            assert(rows(level)[0] == p);
        }
    }
    let mut k: u8 = 0;
    while (k as usize) < n
        invariant
            k <= n <= MAX_NUMBERS,
            swaps_sound(n as int, table@, k as int),
            swaps_complete(n as int, table@, k as int),
            swaps_level(table@, rows(level), k as int),
        decreases n - k,
    {
        let ghost before = table@;
        let next = next_swaps(n, &level, k, &mut table);
        proof {
            lemma_swaps_level_complete(n as int, before, table@, rows(level), k as int);
        }
        level = next;
        k += 1;
    }
    proof {
        lemma_swaps_all(n as int, table@);
    }
    Some(table)
}

} // verus!
