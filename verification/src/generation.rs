//! The search by generations: all joint states that programs of one length
//! reach are worked on together. The successors of each entry of a
//! generation can be computed by themselves, in any order and side by side;
//! only merging them into the visited store, which makes the next
//! generation, goes one by one.

use vstd::prelude::*;
use crate::canon::{concat_rows, state_positions};
use crate::canon::normalize;
use crate::catalog::{
    ConfigError,
    catalog_ok,
    check_catalog,
    check_rows,
    command_ok,
    lemma_ok_in_bounds,
};
use crate::config::Config;
use crate::driver::{OpenEntry, bumped_by, entry_ok, lemma_entry_stable};
use crate::machine::{Command, apply_all, image, uniform, valid_row, valid_rows};
use crate::optimal::{
    Frame,
    admissible,
    bounded,
    capped,
    clause,
    closed,
    keeps,
    lookup,
    node,
    recorded_within,
    settled,
    shortest,
    status,
    unsolvable,
    lemma_closed_monotone,
    lemma_some_open_is_short,
};
use crate::canon::key_of;
use crate::order::{strictly_sorted, lemma_listing_is};
use crate::order::{State, rows, is_listing_of, same_members, lemma_members_chain};
use crate::program::{
    from_catalog,
    lemma_listing_uniform,
    replay,
    solves,
    lemma_image_of_members,
    lemma_replay_push,
};
use crate::store::{MemoryStore, improves};
use crate::trace::{Trace, extract_program};
use crate::viability::{is_goal, viable, state_goal, state_viable, lemma_goal_of_members, lemma_viable_of_members};

verus! {

/// A successor that waits to be merged: the number of the entry it comes
/// from, the number of the catalog entry that made it, and its joint state.
pub struct Candidate {
    /// The number of the parent in its generation.
    pub parent: usize,
    /// The number of the instruction in the catalog.
    pub cmd: usize,
    /// The joint state, its rows in increasing order.
    pub state: State,
}

/// The candidate is the successor that its instruction makes of a joint
/// state, and it is viable.
pub open spec fn candidate_of(
    cfg: Config,
    catalog: Seq<Command>,
    parent: usize,
    s: Seq<Seq<u8>>,
    c: Candidate,
) -> bool {
    &&& c.parent == parent
    &&& c.cmd < catalog.len()
    &&& uniform(cfg, rows(c.state))
    &&& is_listing_of(rows(c.state), image(cfg, catalog[c.cmd as int], s))
    &&& state_viable(cfg, image(cfg, catalog[c.cmd as int], s))
}

/// Computes the successors of one joint state: what each instruction of the
/// catalog makes of it, in catalog order, without those that are not viable.
pub fn successors(cfg: &Config, catalog: &Vec<Command>, parent: usize, state: &State) -> (out: Vec<
    Candidate,
>)
    requires
        cfg.wf(),
        catalog_ok(*cfg, catalog@),
        uniform(*cfg, rows(*state)),
    ensures
        forall|i: int|
            0 <= i < out.len() ==> candidate_of(*cfg, catalog@, parent, rows(*state), #[trigger] out@[i]),
        forall|i: int, j: int| 0 <= i < j < out.len() ==> out@[i].cmd < out@[j].cmd,
        forall|k: int|
            0 <= k < catalog.len() && state_viable(
                *cfg,
                image(*cfg, #[trigger] catalog@[k], rows(*state)),
            ) ==> exists|i: int| 0 <= i < out.len() && #[trigger] out@[i].cmd == k,
{
    let mut out: Vec<Candidate> = Vec::new();
    let mut k: usize = 0;
    while k < catalog.len()
        invariant
            k <= catalog.len(),
            cfg.wf(),
            catalog_ok(*cfg, catalog@),
            uniform(*cfg, rows(*state)),
            forall|i: int|
                0 <= i < out.len() ==> candidate_of(
                    *cfg,
                    catalog@,
                    parent,
                    rows(*state),
                    #[trigger] out@[i],
                ) && out@[i].cmd < k,
            forall|i: int, j: int| 0 <= i < j < out.len() ==> out@[i].cmd < out@[j].cmd,
            forall|c: int|
                0 <= c < k && state_viable(*cfg, image(*cfg, #[trigger] catalog@[c], rows(*state)))
                    ==> exists|i: int| 0 <= i < out.len() && #[trigger] out@[i].cmd == c,
        decreases catalog.len() - k,
    {
        let cmd: Command = catalog[k];
        proof {
            lemma_ok_in_bounds(*cfg, cmd);
        }
        let next = apply_all(cfg, &cmd, state);
        proof {
            lemma_viable_of_members(*cfg, rows(next), image(*cfg, cmd, rows(*state)));
        }
        let ghost before = out@;
        if viable(cfg, &next) {
            out.push(Candidate { parent, cmd: k, state: next });
            proof {
                assert(out@[before.len() as int].cmd == k);
                assert forall|c: int|
                    0 <= c < k + 1 && state_viable(
                        *cfg,
                        image(*cfg, #[trigger] catalog@[c], rows(*state)),
                    ) implies exists|i: int| 0 <= i < out.len() && #[trigger] out@[i].cmd == c by {
                    if c < k {
                        let i = choose|i: int| 0 <= i < before.len() && #[trigger] before[i].cmd == c;
                        assert(out@[i].cmd == c);
                    }
                }
            }
        }
        k += 1;
    }
    out
}

/// Finds the first entry of a generation whose joint state is sorted.
pub fn find_goal(cfg: &Config, generation: &Vec<OpenEntry>) -> (found: Option<usize>)
    requires
        cfg.wf(),
        forall|i: int|
            0 <= i < generation.len() ==> uniform(*cfg, rows((#[trigger] generation@[i]).state)),
    ensures
        match found {
            Some(i) => {
                &&& i < generation.len()
                &&& state_goal(*cfg, rows(generation@[i as int].state))
                &&& forall|j: int|
                    0 <= j < i ==> !state_goal(*cfg, rows((#[trigger] generation@[j]).state))
            },
            None => forall|j: int|
                0 <= j < generation.len() ==> !state_goal(
                    *cfg,
                    rows((#[trigger] generation@[j]).state),
                ),
        },
{
    let mut i: usize = 0;
    while i < generation.len()
        invariant
            i <= generation.len(),
            cfg.wf(),
            forall|i: int|
                0 <= i < generation.len() ==> uniform(*cfg, rows((#[trigger] generation@[i]).state)),
            forall|j: int| 0 <= j < i ==> !state_goal(*cfg, rows((#[trigger] generation@[j]).state)),
        decreases generation.len() - i,
    {
        assert(uniform(*cfg, rows(generation@[i as int].state)));
        if is_goal(cfg, &generation[i].state) {
            return Some(i);
        }
        i += 1;
    }
    None
}

/// Every entry of the generation is what the search may hold, its program
/// has the length of the generation, and no two entries have the same trace
/// node.
pub open spec fn generation_ok(
    cfg: Config,
    catalog: Seq<Command>,
    origin: Seq<Seq<u8>>,
    trace: &Trace,
    generation: Seq<OpenEntry>,
    length: int,
) -> bool {
    &&& forall|i: int|
        0 <= i < generation.len() ==> entry_ok(cfg, catalog, origin, *trace, #[trigger] generation[i])
            && generation[i].length == length
    &&& nodes_apart(generation)
}

/// No two entries have the same trace node.
pub open spec fn nodes_apart(generation: Seq<OpenEntry>) -> bool {
    forall|i: int, j: int|
        0 <= i < generation.len() && 0 <= j < generation.len() && i != j && (
        #[trigger] generation[i]).node is Some ==> generation[i].node != (
        #[trigger] generation[j]).node
}

/// The key of the entry with the number `j`.
pub open spec fn key_at(entries: Seq<OpenEntry>, j: int) -> Seq<u8> {
    concat_rows(rows(entries[j].state))
}

/// Some entry has the key `key`.
pub open spec fn listed(entries: Seq<OpenEntry>, key: Seq<u8>) -> bool {
    exists|j: int| 0 <= j < entries.len() && #[trigger] key_at(entries, j) == key
}

/// The store once the first `i` candidates are merged with the length
/// `length`: each in turn is recorded where the store holds no length for its
/// key, or a larger one.
pub open spec fn store_after(
    before: Map<Seq<u8>, u8>,
    candidates: Seq<Candidate>,
    i: int,
    length: u8,
) -> Map<Seq<u8>, u8>
    decreases i,
{
    if i <= 0 {
        before
    } else {
        let held = store_after(before, candidates, i - 1, length);
        let key = concat_rows(rows(candidates[i - 1].state));
        if improves(lookup(held, key), length) {
            held.insert(key, length)
        } else {
            held
        }
    }
}

/// The candidate with the number `i` is recorded at its turn.
pub open spec fn joins(
    before: Map<Seq<u8>, u8>,
    candidates: Seq<Candidate>,
    i: int,
    length: u8,
) -> bool {
    improves(
        lookup(store_after(before, candidates, i, length), concat_rows(rows(candidates[i].state))),
        length,
    )
}

/// The joint states of those of the first `i` candidates that are recorded
/// at their turn, in their order.
pub open spec fn joined(
    before: Map<Seq<u8>, u8>,
    candidates: Seq<Candidate>,
    i: int,
    length: u8,
) -> Seq<Seq<Seq<u8>>>
    decreases i,
{
    if i <= 0 {
        Seq::empty()
    } else {
        let rest = joined(before, candidates, i - 1, length);
        if joins(before, candidates, i - 1, length) {
            rest.push(rows(candidates[i - 1].state))
        } else {
            rest
        }
    }
}

/// The numbers of those of the first `i` candidates that are recorded at
/// their turn, in their order.
pub open spec fn picks(
    before: Map<Seq<u8>, u8>,
    candidates: Seq<Candidate>,
    i: int,
    length: u8,
) -> Seq<int>
    decreases i,
{
    if i <= 0 {
        Seq::empty()
    } else {
        let rest = picks(before, candidates, i - 1, length);
        if joins(before, candidates, i - 1, length) {
            rest.push(i - 1)
        } else {
            rest
        }
    }
}

/// The joint states of the entries, in their order.
pub open spec fn states_of(entries: Seq<OpenEntry>) -> Seq<Seq<Seq<u8>>> {
    entries.map_values(|e: OpenEntry| rows(e.state))
}

/// What a merge makes of the store: a key that it held keeps its length,
/// or, where that was larger, gets the length of the next generation; a new
/// key gets that length; and every key that got it belongs to an entry of
/// the next generation.
pub open spec fn merged(
    before: Map<Seq<u8>, u8>,
    after: Map<Seq<u8>, u8>,
    next: Seq<OpenEntry>,
    length: int,
) -> bool {
    &&& forall|key: Seq<u8>| #[trigger]
        before.contains_key(key) ==> after.contains_key(key) && after[key] <= before[key]
    &&& forall|key: Seq<u8>| #[trigger]
        after.contains_key(key) ==> (before.contains_key(key) && after[key] == before[key]) || (
        after[key] == length && listed(next, key))
    &&& forall|j: int| 0 <= j < next.len() ==> after.contains_key(#[trigger] key_at(next, j))
        && after[key_at(next, j)] == length
}

/// The key of every entry, with the length of the generation.
pub open spec fn pairs_of(entries: Seq<OpenEntry>, length: int) -> Set<(Seq<u8>, int)> {
    Set::new(|p: (Seq<u8>, int)| listed(entries, p.0) && p.1 == length)
}

/// The candidates stand in the order of their parents and, for one parent,
/// in catalog order; none stands twice.
pub open spec fn in_turn(candidates: Seq<Candidate>) -> bool {
    forall|a: int, b: int|
        0 <= a < b < candidates.len() ==> (#[trigger] candidates[a]).parent < (
        #[trigger] candidates[b]).parent || (candidates[a].parent == candidates[b].parent
            && candidates[a].cmd < candidates[b].cmd)
}

/// The candidates hold every viable successor of every entry.
pub open spec fn covering(
    cfg: Config,
    catalog: Seq<Command>,
    entries: Seq<OpenEntry>,
    candidates: Seq<Candidate>,
) -> bool {
    forall|i: int, k: int|
        0 <= i < entries.len() && 0 <= k < catalog.len() && #[trigger] state_viable(
            cfg,
            image(cfg, catalog[k], rows(entries[i].state)),
        ) ==> exists|c: int|
            0 <= c < candidates.len() && (#[trigger] candidates[c]).parent == i && candidates[c].cmd
                == k
}

/// The bookkeeping of a search by generations is in order: every key that
/// the store holds is accounted for, none with a length beyond that of the
/// generation.
pub open spec fn generation_exact(
    f: Frame,
    store: Map<Seq<u8>, u8>,
    entries: Seq<OpenEntry>,
    length: int,
) -> bool {
    &&& settled(f, store, pairs_of(entries, length))
    &&& bounded(store, pairs_of(entries, length))
    &&& forall|key: Seq<u8>| #[trigger] store.contains_key(key) ==> store[key] <= length
}

/// Once a generation without a sorted joint state is expanded and merged,
/// the bookkeeping is in order for the next one.
pub proof fn lemma_next_generation(
    f: Frame,
    before: Map<Seq<u8>, u8>,
    after: Map<Seq<u8>, u8>,
    entries: Seq<OpenEntry>,
    next: Seq<OpenEntry>,
    candidates: Seq<Candidate>,
    k: int,
)
    requires
        f.bounds is None,
        0 <= k < f.cfg.max_len,
        generation_exact(f, before, entries, k),
        forall|i: int|
            0 <= i < entries.len() ==> {
                &&& uniform(f.cfg, rows((#[trigger] entries[i]).state))
                &&& strictly_sorted(rows(entries[i].state))
                &&& !state_goal(f.cfg, rows(entries[i].state))
            },
        forall|c: int|
            0 <= c < candidates.len() ==> (#[trigger] candidates[c]).parent < entries.len()
                && candidate_of(
                f.cfg,
                f.catalog,
                candidates[c].parent,
                rows(entries[candidates[c].parent as int].state),
                candidates[c],
            ),
        covering(f.cfg, f.catalog, entries, candidates),
        merged(before, after, next, k + 1),
        forall|c: int|
            0 <= c < candidates.len() ==> recorded_within(
                after,
                concat_rows(rows((#[trigger] candidates[c]).state)),
                k + 1,
            ),
    ensures
        generation_exact(f, after, next, k + 1),
{
    let open = pairs_of(entries, k);
    let open2 = pairs_of(next, k + 1);
    assert(crate::optimal::below(after, before));
    assert forall|key: Seq<u8>| #[trigger] after.contains_key(key) implies status(
        f,
        after,
        open2,
        key,
    ) by {
        if before.contains_key(key) && after[key] == before[key] {
            let l = before[key] as int;
            assert(status(f, before, open, key));
            if open.contains((key, l)) {
                let i = choose|i: int| 0 <= i < entries.len() && #[trigger] key_at(entries, i) == key;
                let s = rows(entries[i].state);
                assert(uniform(f.cfg, rows(entries[i].state)));
                assert(node(f, s, key));
                assert forall|k2: int| 0 <= k2 < f.catalog.len() implies #[trigger] clause(
                    f,
                    after,
                    s,
                    k,
                    k2,
                ) by {
                    if keeps(f, s, k, k2) {
                        assert(state_viable(f.cfg, image(f.cfg, f.catalog[k2], rows(entries[i].state))));
                        let c = choose|c: int|
                            0 <= c < candidates.len() && (#[trigger] candidates[c]).parent == i
                                && candidates[c].cmd == k2;
                        assert(candidate_of(
                            f.cfg,
                            f.catalog,
                            candidates[c].parent,
                            rows(entries[candidates[c].parent as int].state),
                            candidates[c],
                        ));
                        lemma_listing_is(rows(candidates[c].state), image(f.cfg, f.catalog[k2], s));
                        assert(recorded_within(after, concat_rows(rows(candidates[c].state)), k + 1));
                    }
                }
                assert(closed(f, after, key, k));
            } else if closed(f, before, key, l) {
                lemma_closed_monotone(f, before, after, key, l);
            }
        } else {
            assert(listed(next, key));
            assert(open2.contains((key, k + 1)));
        }
    }
    assert forall|p: (Seq<u8>, int)| #[trigger] open2.contains(p) implies recorded_within(
        after,
        p.0,
        p.1,
    ) by {
        let j = choose|j: int| 0 <= j < next.len() && #[trigger] key_at(next, j) == p.0;
        assert(after.contains_key(key_at(next, j)));
    }
}

/// A generation without a sorted joint state, at the longest length
/// allowed, with the bookkeeping in order: no program sorts.
pub proof fn lemma_last_generation(
    f: Frame,
    store: Map<Seq<u8>, u8>,
    entries: Seq<OpenEntry>,
    k: int,
)
    requires
        admissible(f),
        k >= f.cfg.max_len,
        generation_exact(f, store, entries, k),
        forall|i: int|
            0 <= i < entries.len() ==> {
                &&& uniform(f.cfg, rows((#[trigger] entries[i]).state))
                &&& strictly_sorted(rows(entries[i].state))
                &&& !state_goal(f.cfg, rows(entries[i].state))
            },
    ensures
        unsolvable(f),
{
    let open = pairs_of(entries, k);
    let none = Set::<(Seq<u8>, int)>::empty();
    assert forall|key: Seq<u8>| #[trigger] store.contains_key(key) implies status(
        f,
        store,
        none,
        key,
    ) by {
        let l = store[key] as int;
        assert(status(f, store, open, key));
        if open.contains((key, l)) {
            let i = choose|i: int| 0 <= i < entries.len() && #[trigger] key_at(entries, i) == key;
            assert(uniform(f.cfg, rows(entries[i].state)));
            assert(node(f, rows(entries[i].state), key));
            assert(capped(f, key, l));
        }
    }
    assert(settled(f, store, none));
    assert forall|q: Seq<Command>|
        from_catalog(f.catalog, q) && q.len() <= f.cfg.max_len implies !#[trigger] solves(
        f.cfg,
        q,
        f.origin,
    ) by {
        if solves(f.cfg, q, f.origin) {
            lemma_some_open_is_short(f, store, none, q);
            let p = choose|p: (Seq<u8>, int)| #[trigger] none.contains(p) && p.1 <= q.len();
            assert(none.contains(p));
        }
    }
}

/// With the bookkeeping in order, no program that sorts is shorter than the
/// programs of the generation.
pub proof fn lemma_generation_shortest(
    f: Frame,
    store: Map<Seq<u8>, u8>,
    entries: Seq<OpenEntry>,
    k: int,
)
    requires
        admissible(f),
        generation_exact(f, store, entries, k),
    ensures
        shortest(f, k),
{
    let open = pairs_of(entries, k);
    assert forall|q: Seq<Command>|
        from_catalog(f.catalog, q) && q.len() <= f.cfg.max_len && #[trigger] solves(
            f.cfg,
            q,
            f.origin,
        ) implies k <= q.len() by {
        lemma_some_open_is_short(f, store, open, q);
        let p = choose|p: (Seq<u8>, int)| #[trigger] open.contains(p) && p.1 <= q.len();
        assert(open.contains(p));
    }
}

/// Merges the successors of a generation into the visited store, one by one
/// in the order given: a successor whose key has no length yet, or a larger
/// one, is recorded with the length of the next generation and joins it; the
/// others are counted as duplicates.
fn merge_generation(
    cfg: &Config,
    catalog: &Vec<Command>,
    Ghost(origin): Ghost<Seq<Seq<u8>>>,
    store: &mut MemoryStore,
    trace: &mut Trace,
    generation: &Vec<OpenEntry>,
    candidates: Vec<Candidate>,
    length: u8,
    duplicate: &mut u64,
) -> (next: Vec<OpenEntry>)
    requires
        cfg.wf(),
        catalog_ok(*cfg, catalog@),
        old(trace).wf(),
        length < cfg.max_len,
        generation_ok(*cfg, catalog@, origin, old(trace), generation@, length as int),
        forall|i: int|
            0 <= i < candidates.len() ==> (#[trigger] candidates@[i]).parent < generation.len()
                && candidate_of(
                *cfg,
                catalog@,
                candidates@[i].parent,
                rows(generation@[candidates@[i].parent as int].state),
                candidates@[i],
            ),
    ensures
        final(trace).wf(),
        generation_ok(*cfg, catalog@, origin, final(trace), next@, length + 1),
        next.len() <= candidates.len(),
        *final(duplicate) == bumped_by(*old(duplicate), candidates.len() - next.len()),
        merged(old(store)@, final(store)@, next@, length + 1),
        final(store)@ == store_after(
            old(store)@,
            candidates@,
            candidates.len() as int,
            (length + 1) as u8,
        ),
        states_of(next@) == joined(
            old(store)@,
            candidates@,
            candidates.len() as int,
            (length + 1) as u8,
        ),
        next.len() == picks(
            old(store)@,
            candidates@,
            candidates.len() as int,
            (length + 1) as u8,
        ).len(),
        forall|j: int|
            0 <= j < next.len() ==> {
                let c = candidates@[picks(
                    old(store)@,
                    candidates@,
                    candidates.len() as int,
                    (length + 1) as u8,
                )[j]];
                final(trace).program((#[trigger] next@[j]).node) == old(trace).program(
                    generation@[c.parent as int].node,
                ).push(catalog@[c.cmd as int])
            },
        forall|i: int|
            0 <= i < candidates.len() ==> final(store)@.contains_key(
                concat_rows(rows((#[trigger] candidates@[i]).state)),
            ) && final(store)@[concat_rows(rows(candidates@[i].state))] <= length + 1,
{
    let mut next: Vec<OpenEntry> = Vec::new();
    let mut pending = candidates;
    let ghost all = pending@;
    let mut i: usize = 0;
    while i < pending.len()
        invariant
            i <= pending.len(),
            pending.len() == all.len(),
            forall|j: int| i <= j < pending.len() ==> pending@[j] == all[j],
            cfg.wf(),
            catalog_ok(*cfg, catalog@),
            trace.wf(),
            length < cfg.max_len,
            generation_ok(*cfg, catalog@, origin, trace, generation@, length as int),
            generation_ok(*cfg, catalog@, origin, trace, next@, length + 1),
            forall|a: int, b: int|
                0 <= a < generation.len() && 0 <= b < next.len() ==> (#[trigger] generation@[a]).node
                    != (#[trigger] next@[b]).node,
            forall|j: int|
                0 <= j < all.len() ==> (#[trigger] all[j]).parent < generation.len() && candidate_of(
                    *cfg,
                    catalog@,
                    all[j].parent,
                    rows(generation@[all[j].parent as int].state),
                    all[j],
                ),
            next.len() <= i,
            *duplicate == bumped_by(*old(duplicate), i - next.len()),
            merged(old(store)@, store@, next@, length + 1),
            store@ == store_after(old(store)@, all, i as int, (length + 1) as u8),
            states_of(next@) == joined(old(store)@, all, i as int, (length + 1) as u8),
            next.len() == picks(old(store)@, all, i as int, (length + 1) as u8).len(),
            forall|j: int|
                0 <= j < next.len() ==> 0 <= (#[trigger] picks(
                    old(store)@,
                    all,
                    i as int,
                    (length + 1) as u8,
                )[j]) < i,
            forall|j: int|
                0 <= j < next.len() ==> {
                    let c = all[picks(old(store)@, all, i as int, (length + 1) as u8)[j]];
                    trace.program((#[trigger] next@[j]).node) == old(trace).program(
                        generation@[c.parent as int].node,
                    ).push(catalog@[c.cmd as int])
                },
            forall|a: int|
                0 <= a < generation.len() ==> trace.program((#[trigger] generation@[a]).node)
                    == old(trace).program(generation@[a].node),
            forall|j: int|
                0 <= j < i ==> store@.contains_key(concat_rows(rows((#[trigger] all[j]).state)))
                    && store@[concat_rows(rows(all[j].state))] <= length + 1,
        decreases pending.len() - i,
    {
        let mut cand = Candidate { parent: 0, cmd: 0, state: Vec::new() };
        pending.set_and_swap(i, &mut cand);
        assert(cand == all[i as int]);
        let key = state_positions(&cand.state);
        let ghost k = key@;
        let ghost held = store@;
        let recorded = store.put(key, length + 1);
        let ghost listed_before = next@;
        proof {
            assert forall|j: int| 0 <= j < i + 1 implies store@.contains_key(
                concat_rows(rows((#[trigger] all[j]).state)),
            ) && store@[concat_rows(rows(all[j].state))] <= length + 1 by {
                let kj = concat_rows(rows(all[j].state));
                if j < i {
                    assert(held.contains_key(kj) && held[kj] <= length + 1);
                }
            }
        }
        if recorded {
            let parent = &generation[cand.parent];
            let cmd: Command = catalog[cand.cmd];
            let ghost nodes = *trace;
            let ghost program = trace.program(parent.node);
            assert(entry_ok(*cfg, catalog@, origin, nodes, *parent));
            let node = trace.extend(parent.node, cmd);
            let entry = OpenEntry { state: cand.state, node: Some(node), length: length + 1 };
            proof {
                let more = *trace;
                let longer = program.push(cmd);
                assert forall|j: int| 0 <= j < generation.len() implies entry_ok(
                    *cfg,
                    catalog@,
                    origin,
                    more,
                    #[trigger] generation@[j],
                ) by {
                    lemma_entry_stable(*cfg, catalog@, origin, nodes, more, generation@[j]);
                }
                assert forall|j: int| 0 <= j < next.len() implies entry_ok(
                    *cfg,
                    catalog@,
                    origin,
                    more,
                    #[trigger] next@[j],
                ) by {
                    lemma_entry_stable(*cfg, catalog@, origin, nodes, more, next@[j]);
                }
                assert(from_catalog(catalog@, longer)) by {
                    assert(catalog@.contains(catalog@[cand.cmd as int]));
                    assert forall|j: int| 0 <= j < longer.len() implies catalog@.contains(
                        #[trigger] longer[j],
                    ) by {
                        if j < program.len() {
                            assert(longer[j] == program[j]);
                        }
                    }
                }
                lemma_replay_push(*cfg, program, cmd, origin);
                lemma_image_of_members(
                    *cfg,
                    cmd,
                    rows(parent.state),
                    replay(*cfg, program, origin),
                );
                lemma_members_chain(
                    rows(entry.state),
                    image(*cfg, cmd, rows(parent.state)),
                    replay(*cfg, longer, origin),
                );
            }
            next.push(entry);
            proof {
                assert(states_of(next@) =~= states_of(listed_before).push(rows(all[i as int].state)));
            }
            proof {
                let after = store@;
                let more = next@;
                let fresh = listed_before.len() as int;
                assert(key_at(more, fresh) == k);
                assert forall|j: int| 0 <= j < listed_before.len() implies key_at(more, j) == key_at(
                    listed_before,
                    j,
                ) by {
                    assert(more[j] == listed_before[j]);
                }
                assert forall|key: Seq<u8>| #[trigger] old(store)@.contains_key(key) implies after.contains_key(
                    key,
                ) && after[key] <= old(store)@[key] by {
                    assert(held.contains_key(key));
                }
                assert forall|key: Seq<u8>| #[trigger] after.contains_key(key) implies (old(
                    store,
                )@.contains_key(key) && after[key] == old(store)@[key]) || (after[key] == length + 1
                    && listed(more, key)) by {
                    if key == k {
                        assert(key_at(more, fresh) == key);
                    } else {
                        assert(held.contains_key(key));
                        if !(old(store)@.contains_key(key) && held[key] == old(store)@[key]) {
                            let j = choose|j: int|
                                0 <= j < listed_before.len() && #[trigger] key_at(listed_before, j)
                                    == key;
                            assert(key_at(more, j) == key);
                        }
                    }
                }
                assert forall|j: int| 0 <= j < more.len() implies after.contains_key(
                    #[trigger] key_at(more, j),
                ) && after[key_at(more, j)] == length + 1 by {
                    if j < fresh {
                        assert(key_at(more, j) == key_at(listed_before, j));
                        assert(held.contains_key(key_at(listed_before, j)));
                    }
                }
            }
        } else {
            if *duplicate < u64::MAX {
                *duplicate = *duplicate + 1;
            }
        }
        i += 1;
    }
    // the generation is done with: its trace nodes stay only as far as the
    // next generation builds on them
    let mut g: usize = 0;
    while g < generation.len()
        invariant
            g <= generation.len(),
            trace.wf(),
            nodes_apart(generation@),
            all == candidates@,
            forall|j: int|
                0 <= j < next.len() ==> {
                    let c = all[picks(old(store)@, all, all.len() as int, (length + 1) as u8)[j]];
                    trace.program((#[trigger] next@[j]).node) == old(trace).program(
                        generation@[c.parent as int].node,
                    ).push(catalog@[c.cmd as int])
                },
            forall|a: int| g <= a < generation.len() ==> trace.has((#[trigger] generation@[a]).node),
            generation_ok(*cfg, catalog@, origin, trace, next@, length + 1),
            forall|a: int, b: int|
                0 <= a < generation.len() && 0 <= b < next.len() ==> (#[trigger] generation@[a]).node
                    != (#[trigger] next@[b]).node,
        decreases generation.len() - g,
    {
        match generation[g].node {
            Some(node) => {
                let ghost before = *trace;
                trace.release(node);
                proof {
                    assert forall|b: int| 0 <= b < next.len() implies entry_ok(
                        *cfg,
                        catalog@,
                        origin,
                        *trace,
                        #[trigger] next@[b],
                    ) by {
                        assert(generation@[g as int].node != next@[b].node);
                        assert(trace.program(next@[b].node) == before.program(next@[b].node));
                        lemma_entry_stable(*cfg, catalog@, origin, before, *trace, next@[b]);
                    }
                    assert forall|a: int| g + 1 <= a < generation.len() implies trace.has(
                        (#[trigger] generation@[a]).node,
                    ) by {
                        assert(before.has(generation@[a].node));
                        assert(generation@[a].node is Some ==> generation@[a].node
                            != generation@[g as int].node);
                    }
                }
            },
            None => {},
        }
        g += 1;
    }
    next
}

/// A search by generations: the generation that is worked on, the length of
/// its programs, and the trace of all programs so far.
pub struct Generations {
    cfg: Config,
    catalog: Vec<Command>,
    origin: Ghost<Seq<Seq<u8>>>,
    trace: Trace,
    generation: Vec<OpenEntry>,
    length: u8,
    visited: u64,
    duplicate: u64,
}

impl Generations {
    /// The configuration of the search.
    pub closed spec fn config(&self) -> Config {
        self.cfg
    }

    /// The catalog of the search.
    pub closed spec fn instructions(&self) -> Seq<Command> {
        self.catalog@
    }

    /// The rows of the initial joint state, in increasing order.
    pub closed spec fn origin(&self) -> Seq<Seq<u8>> {
        self.origin@
    }

    /// The entries of the generation that is worked on.
    pub closed spec fn entries(&self) -> Seq<OpenEntry> {
        self.generation@
    }

    /// The length of the programs of the generation that is worked on.
    pub closed spec fn depth(&self) -> u8 {
        self.length
    }

    /// How many entries were in the generations that are done.
    pub closed spec fn visited_count(&self) -> u64 {
        self.visited
    }

    /// How many successors were dropped as duplicates.
    pub closed spec fn duplicate_count(&self) -> u64 {
        self.duplicate
    }

    /// The search is in order: every entry of the generation is what its
    /// program makes of the initial joint state, and its program has the
    /// length of the generation.
    pub closed spec fn wf(&self) -> bool {
        &&& self.cfg.wf()
        &&& catalog_ok(self.cfg, self.catalog@)
        &&& self.trace.wf()
        &&& self.length <= self.cfg.max_len
        &&& self.length == 0 ==> self.generation@.len() == 1 && rows(self.generation@[0].state)
            == self.origin@
        &&& generation_ok(
            self.cfg,
            self.catalog@,
            self.origin@,
            &self.trace,
            self.generation@,
            self.length as int,
        )
    }

    /// What the search is set up with; it uses no table of lower bounds.
    pub open spec fn frame(&self) -> Frame {
        Frame {
            cfg: self.config(),
            catalog: self.instructions(),
            origin: self.origin(),
            bounds: None,
        }
    }

    /// The program of one entry of the generation that is worked on.
    pub closed spec fn program_of(&self, i: int) -> Seq<Command> {
        self.trace.program(self.generation@[i].node)
    }

    /// The entry with the number `i` is the first of the generation whose
    /// joint state is sorted.
    pub open spec fn first_sorted(&self, i: int) -> bool {
        &&& 0 <= i < self.entries().len()
        &&& state_goal(self.config(), rows(self.entries()[i].state))
        &&& forall|j: int|
            0 <= j < i ==> !state_goal(self.config(), rows((#[trigger] self.entries()[j]).state))
    }

    /// The bookkeeping of the search is in order with what the store holds.
    pub open spec fn exact(&self, store: Map<Seq<u8>, u8>) -> bool {
        generation_exact(self.frame(), store, self.entries(), self.depth() as int)
    }

    /// No joint state of the generation that is worked on is sorted.
    pub open spec fn unsorted(&self) -> bool {
        forall|j: int|
            0 <= j < self.entries().len() ==> !state_goal(
                self.config(),
                rows((#[trigger] self.entries()[j]).state),
            )
    }

    /// The search has not begun: the initial joint state is the only entry
    /// of its generation.
    pub open spec fn fresh(&self) -> bool {
        &&& self.depth() == 0
        &&& self.entries().len() == 1
        &&& rows(self.entries()[0].state) == self.origin()
    }

    /// The candidates are successors of entries of the generation that is
    /// worked on.
    pub open spec fn takes(&self, candidates: Seq<Candidate>) -> bool {
        forall|i: int|
            0 <= i < candidates.len() ==> (#[trigger] candidates[i]).parent < self.entries().len()
                && candidate_of(
                self.config(),
                self.instructions(),
                candidates[i].parent,
                rows(self.entries()[candidates[i].parent as int].state),
                candidates[i],
            )
    }

    /// Sets a search up: checks the sizes, the catalog and the rows of the
    /// initial joint state against the machine, and makes the initial joint
    /// state the only entry of the first generation.
    pub fn new(cfg: Config, catalog: Vec<Command>, initial: &State) -> (res: Result<
        Generations,
        ConfigError,
    >)
        ensures
            res.is_ok() <==> (cfg.wf() && catalog_ok(cfg, catalog@) && valid_rows(
                cfg,
                rows(*initial),
            )),
            match res {
                Ok(search) => {
                    &&& search.wf()
                    &&& search.config() == cfg
                    &&& search.instructions() == catalog@
                    &&& is_listing_of(search.origin(), rows(*initial))
                    &&& search.fresh()
                    &&& search.visited_count() == 0
                    &&& search.duplicate_count() == 0
                },
                Err(ConfigError::BadSizes) => !cfg.wf(),
                Err(ConfigError::BadCommand(i)) => {
                    &&& cfg.wf()
                    &&& i < catalog.len()
                    &&& !command_ok(cfg, catalog@[i as int])
                },
                Err(ConfigError::BadRow(i)) => {
                    &&& cfg.wf()
                    &&& catalog_ok(cfg, catalog@)
                    &&& i < initial.len()
                    &&& !valid_row(cfg, rows(*initial)[i as int])
                },
            },
    {
        if !cfg.is_wf() {
            return Err(ConfigError::BadSizes);
        }
        match check_catalog(&cfg, &catalog) {
            Err(e) => {
                return Err(e);
            },
            Ok(_) => {},
        }
        match check_rows(&cfg, initial) {
            Err(e) => {
                return Err(e);
            },
            Ok(_) => {},
        }
        proof {
            assert forall|i: int| 0 <= i < rows(*initial).len() implies (#[trigger] rows(
                *initial,
            )[i]).len() == cfg.width_spec() by {
                assert(valid_row(cfg, rows(*initial)[i]));
            }
        }
        let seed = normalize(initial);
        let trace = Trace::new();
        proof {
            lemma_listing_uniform(cfg, rows(seed), rows(*initial));
            assert(trace.program(None) =~= Seq::<Command>::empty());
            assert(same_members(rows(seed), rows(seed)));
        }
        let ghost origin = rows(seed);
        let mut generation: Vec<OpenEntry> = Vec::new();
        generation.push(OpenEntry { state: seed, node: None, length: 0 });
        Ok(
            Generations {
                cfg,
                catalog,
                origin: Ghost(origin),
                trace,
                generation,
                length: 0,
                visited: 0,
                duplicate: 0,
            },
        )
    }

    /// The number of entries of the generation that is worked on.
    pub fn len(&self) -> (n: usize)
        ensures
            n == self.entries().len(),
    {
        self.generation.len()
    }

    /// The joint state of one entry of the generation that is worked on.
    pub fn state(&self, i: usize) -> (state: &State)
        requires
            self.wf(),
            i < self.entries().len(),
        ensures
            *state == self.entries()[i as int].state,
            uniform(self.config(), rows(*state)),
    {
        &self.generation[i]
    .state
    }

    /// The length of the programs of the generation that is worked on.
    pub fn length(&self) -> (n: u8)
        ensures
            n == self.depth(),
    {
        self.length
    }

    /// How many entries were in the generations that are done.
    pub fn visited(&self) -> (n: u64)
        ensures
            n == self.visited_count(),
    {
        self.visited
    }

    /// How many successors were dropped as duplicates.
    pub fn duplicate(&self) -> (n: u64)
        ensures
            n == self.duplicate_count(),
    {
        self.duplicate
    }

    /// Looks for a sorted joint state in the generation that is worked on
    /// and hands out the program of the first one.
    pub fn solution(&self) -> (found: Option<Vec<Command>>)
        requires
            self.wf(),
        ensures
            match found {
                Some(program) => {
                    &&& solves(self.config(), program@, self.origin())
                    &&& program@.len() == self.depth()
                    &&& from_catalog(self.instructions(), program@)
                    &&& exists|i: int| #[trigger] self.first_sorted(i) && program@ == self.program_of(i)
                },
                None => self.unsorted(),
            },
    {
        match find_goal(&self.cfg, &self.generation) {
            None => None,
            Some(i) => {
                let entry = &self.generation[i];
                proof {
                    assert(entry_ok(self.cfg, self.catalog@, self.origin@, self.trace, *entry));
                    lemma_goal_of_members(
                        self.cfg,
                        rows(entry.state),
                        replay(self.cfg, self.trace.program(entry.node), self.origin@),
                    );
                }
                let program = extract_program(&self.trace, entry.node);
                proof {
                    assert(self.first_sorted(i as int));
                }
                Some(program)
            },
        }
    }

    /// The barrier between two generations: merges the successors of the
    /// generation that is worked on into the visited store, one by one in
    /// the order given, and makes those that were recorded the next
    /// generation.
    pub fn merge(&mut self, store: &mut MemoryStore, candidates: Vec<Candidate>)
        requires
            old(self).wf(),
            old(self).depth() < old(self).config().max_len,
            old(self).takes(candidates@),
        ensures
            final(self).wf(),
            final(self).config() == old(self).config(),
            final(self).instructions() == old(self).instructions(),
            final(self).origin() == old(self).origin(),
            final(self).depth() == old(self).depth() + 1,
            final(self).entries().len() <= candidates.len(),
            final(self).visited_count() == bumped_by(
                old(self).visited_count(),
                old(self).entries().len() as int,
            ),
            final(self).duplicate_count() == bumped_by(
                old(self).duplicate_count(),
                candidates.len() - final(self).entries().len(),
            ),
            merged(old(store)@, final(store)@, final(self).entries(), final(self).depth() as int),
            final(store)@ == store_after(
                old(store)@,
                candidates@,
                candidates.len() as int,
                final(self).depth(),
            ),
            states_of(final(self).entries()) == joined(
                old(store)@,
                candidates@,
                candidates.len() as int,
                final(self).depth(),
            ),
            forall|j: int|
                0 <= j < final(self).entries().len() ==> {
                    let c = candidates@[picks(
                        old(store)@,
                        candidates@,
                        candidates.len() as int,
                        final(self).depth(),
                    )[j]];
                    #[trigger] final(self).program_of(j) == old(self).program_of(c.parent as int).push(
                        old(self).instructions()[c.cmd as int],
                    )
                },
            forall|i: int|
                0 <= i < candidates.len() ==> final(store)@.contains_key(
                    concat_rows(rows((#[trigger] candidates@[i]).state)),
                ) && final(store)@[concat_rows(rows(candidates@[i].state))] <= final(self).depth(),
            old(self).exact(old(store)@) && old(self).unsorted() && covering(
                old(self).config(),
                old(self).instructions(),
                old(self).entries(),
                candidates@,
            ) ==> final(self).exact(final(store)@),
    {
        let ghost all = candidates@;
        let next = merge_generation(
            &self.cfg,
            &self.catalog,
            Ghost(self.origin@),
            store,
            &mut self.trace,
            &self.generation,
            candidates,
            self.length,
            &mut self.duplicate,
        );
        let done: u64 = self.generation.len() as u64;
        self.visited = match self.visited.checked_add(done) {
            Some(total) => total,
            None => u64::MAX,
        };
        proof {
            if old(self).exact(old(store)@) && old(self).unsorted() && covering(
                old(self).config(),
                old(self).instructions(),
                old(self).entries(),
                all,
            ) {
                assert forall|i: int| 0 <= i < self.generation@.len() implies {
                    &&& uniform(self.cfg, rows((#[trigger] self.generation@[i]).state))
                    &&& strictly_sorted(rows(self.generation@[i].state))
                    &&& !state_goal(self.cfg, rows(self.generation@[i].state))
                } by {
                    assert(entry_ok(
                        old(self).cfg,
                        old(self).catalog@,
                        old(self).origin@,
                        old(self).trace,
                        old(self).generation@[i],
                    ));
                }
                lemma_next_generation(
                    old(self).frame(),
                    old(store)@,
                    store@,
                    old(self).generation@,
                    next@,
                    all,
                    self.length as int,
                );
            }
        }
        self.generation = next;
        self.length = self.length + 1;
    }

    /// Decides what is to be done with the generation that is worked on: a
    /// sorted joint state ends the search with its program; without one the
    /// search has run out where the programs have the longest length
    /// allowed, and goes on to the next generation where they have not.
    pub fn verdict(&self) -> (v: Verdict)
        requires
            self.wf(),
        ensures
            match v {
                Verdict::Found(program) => {
                    &&& solves(self.config(), program@, self.origin())
                    &&& program@.len() == self.depth()
                    &&& from_catalog(self.instructions(), program@)
                    &&& exists|i: int| #[trigger] self.first_sorted(i) && program@ == self.program_of(i)
                },
                Verdict::RunOut => self.unsorted() && self.depth() >= self.config().max_len,
                Verdict::Expand => self.unsorted() && self.depth() < self.config().max_len,
            },
    {
        match self.solution() {
            Some(program) => Verdict::Found(program),
            None => if self.length >= self.cfg.max_len {
                Verdict::RunOut
            } else {
                Verdict::Expand
            },
        }
    }

    /// Records the initial joint state in the visited store, with which a
    /// search begins.
    pub fn seed(&self, store: &mut MemoryStore)
        requires
            self.wf(),
            self.fresh(),
        ensures
            final(store)@ == (if improves(lookup(old(store)@, concat_rows(self.origin())), 0) {
                old(store)@.insert(concat_rows(self.origin()), 0)
            } else {
                old(store)@
            }),
            old(store)@ == Map::<Seq<u8>, u8>::empty() ==> self.exact(final(store)@),
    {
        let key = state_positions(&self.generation[0].state);
        let ghost k = key@;
        let _ = store.put(key, 0);
        proof {
            if old(store)@ == Map::<Seq<u8>, u8>::empty() {
                let f = self.frame();
                let open = pairs_of(self.entries(), 0);
                assert(key_at(self.entries(), 0) == k);
                assert(open.contains((k, 0int)));
                assert forall|key: Seq<u8>| #[trigger] store@.contains_key(key) implies status(
                    f,
                    store@,
                    open,
                    key,
                ) by {
                    assert(key == k);
                }
                assert forall|p: (Seq<u8>, int)| #[trigger] open.contains(p) implies recorded_within(
                    store@,
                    p.0,
                    p.1,
                ) by {
                    let j = choose|j: int|
                        0 <= j < self.entries().len() && #[trigger] key_at(self.entries(), j) == p.0;
                    assert(j == 0);
                }
            }
        }
    }

    /// Computes the successors of every entry of the generation that is
    /// worked on, entry after entry.
    pub fn expand(&self) -> (candidates: Vec<Candidate>)
        requires
            self.wf(),
        ensures
            self.takes(candidates@),
            covering(self.config(), self.instructions(), self.entries(), candidates@),
            in_turn(candidates@),
    {
        let mut candidates: Vec<Candidate> = Vec::new();
        let mut i: usize = 0;
        while i < self.generation.len()
            invariant
                i <= self.generation.len(),
                self.wf(),
                self.takes(candidates@),
                in_turn(candidates@),
                forall|c: int| 0 <= c < candidates.len() ==> (#[trigger] candidates@[c]).parent < i,
                covering(
                    self.config(),
                    self.instructions(),
                    self.entries().take(i as int),
                    candidates@,
                ),
            decreases self.generation.len() - i,
        {
            assert(entry_ok(
                self.cfg,
                self.catalog@,
                self.origin@,
                self.trace,
                self.generation@[i as int],
            ));
            let mut more = successors(&self.cfg, &self.catalog, i, &self.generation[i].state);
            let ghost before = candidates@;
            let ghost added = more@;
            candidates.append(&mut more);
            proof {
                assert(candidates@ == before + added);
                assert forall|a: int, b: int| 0 <= a < b < candidates.len() implies (
                #[trigger] candidates@[a]).parent < (#[trigger] candidates@[b]).parent || (
                candidates@[a].parent == candidates@[b].parent && candidates@[a].cmd
                    < candidates@[b].cmd) by {
                    if b < before.len() {
                        assert(candidates@[a] == before[a]);
                        assert(candidates@[b] == before[b]);
                    } else if a < before.len() {
                        assert(candidates@[a] == before[a]);
                        assert(candidates@[b] == added[b - before.len()]);
                    } else {
                        assert(candidates@[a] == added[a - before.len()]);
                        assert(candidates@[b] == added[b - before.len()]);
                    }
                }
                assert forall|c: int| 0 <= c < candidates.len() implies (#[trigger] candidates@[c]).parent
                    < i + 1 by {
                    if c < before.len() {
                        assert(candidates@[c] == before[c]);
                    } else {
                        assert(candidates@[c] == added[c - before.len()]);
                    }
                }
                assert forall|j: int| 0 <= j < candidates.len() implies (#[trigger] candidates@[j]).parent
                    < self.entries().len() && candidate_of(
                    self.config(),
                    self.instructions(),
                    candidates@[j].parent,
                    rows(self.entries()[candidates@[j].parent as int].state),
                    candidates@[j],
                ) by {
                    if j < before.len() {
                        assert(candidates@[j] == before[j]);
                    } else {
                        assert(candidates@[j] == added[j - before.len()]);
                    }
                }
                let done = self.entries().take(i as int);
                let more = self.entries().take(i as int + 1);
                assert forall|a: int, k: int|
                    0 <= a < more.len() && 0 <= k < self.catalog@.len() && #[trigger] state_viable(
                        self.cfg,
                        image(self.cfg, self.catalog@[k], rows(more[a].state)),
                    ) implies exists|c: int|
                    0 <= c < candidates.len() && (#[trigger] candidates@[c]).parent == a
                        && candidates@[c].cmd == k by {
                    if a < i {
                        assert(more[a] == done[a]);
                        assert(state_viable(
                            self.cfg,
                            image(self.cfg, self.catalog@[k], rows(done[a].state)),
                        ));
                        let c = choose|c: int|
                            0 <= c < before.len() && (#[trigger] before[c]).parent == a
                                && before[c].cmd == k;
                        assert(candidates@[c] == before[c]);
                    } else {
                        assert(more[a] == self.generation@[i as int]);
                        let c = choose|c: int| 0 <= c < added.len() && #[trigger] added[c].cmd == k;
                        assert(candidates@[c + before.len()] == added[c]);
                        assert(candidates@[c + before.len()].parent == a);
                    }
                }
            }
            i += 1;
        }
        assert(self.entries().take(i as int) =~= self.entries());
        candidates
    }
}

/// What is to be done with a generation.
#[derive(Debug)]
pub enum Verdict {
    /// A joint state of the generation is sorted: this is its program.
    Found(Vec<Command>),
    /// No joint state is sorted, and the programs have the longest length
    /// allowed.
    RunOut,
    /// No joint state is sorted: on to the next generation.
    Expand,
}

/// Searches by generations against a store in memory: records the initial
/// joint state where the search has not begun, then looks for a sorted joint
/// state in each generation in turn, up to the longest program allowed, and
/// hands out the program of the first one found.
///
/// What is handed out sorts. Where the search has not begun, the store holds
/// nothing and the set-up is admissible, it is a shortest program; and where
/// nothing is handed out, no program sorts.
pub fn search_by_generations(search: &mut Generations, store: &mut MemoryStore) -> (found: Option<
    Vec<Command>,
>)
    requires
        old(search).wf(),
    ensures
        final(search).wf(),
        final(search).config() == old(search).config(),
        final(search).origin() == old(search).origin(),
        final(search).instructions() == old(search).instructions(),
        match found {
            Some(program) => {
                &&& solves(final(search).config(), program@, final(search).origin())
                &&& program@.len() == final(search).depth()
                &&& from_catalog(final(search).instructions(), program@)
            },
            None => final(search).depth() == final(search).config().max_len,
        },
        old(search).fresh() && old(store)@ == Map::<Seq<u8>, u8>::empty() && admissible(
            old(search).frame(),
        ) ==> match found {
            Some(program) => shortest(old(search).frame(), program@.len() as int),
            None => unsolvable(old(search).frame()),
        },
{
    let ghost good = old(search).fresh() && old(store)@ == Map::<Seq<u8>, u8>::empty()
        && admissible(old(search).frame());
    if search.length == 0 {
        search.seed(store);
    }
    loop
        invariant
            search.wf(),
            search.config() == old(search).config(),
            search.origin() == old(search).origin(),
            search.instructions() == old(search).instructions(),
            good == (old(search).fresh() && old(store)@ == Map::<Seq<u8>, u8>::empty()
                && admissible(old(search).frame())),
            good ==> admissible(search.frame()) && search.exact(store@),
        decreases search.config().max_len - search.depth(),
    {
        let verdict = search.verdict();
        proof {
            if !(verdict is Found) {
                assert forall|i: int| 0 <= i < search.generation@.len() implies {
                    &&& uniform(search.cfg, rows((#[trigger] search.generation@[i]).state))
                    &&& strictly_sorted(rows(search.generation@[i].state))
                    &&& !state_goal(search.cfg, rows(search.generation@[i].state))
                } by {
                    assert(entry_ok(
                        search.cfg,
                        search.catalog@,
                        search.origin@,
                        search.trace,
                        search.generation@[i],
                    ));
                }
            }
        }
        match verdict {
            Verdict::Found(program) => {
                proof {
                    if good {
                        lemma_generation_shortest(
                            search.frame(),
                            store@,
                            search.entries(),
                            search.depth() as int,
                        );
                    }
                }
                return Some(program);
            },
            Verdict::RunOut => {
                proof {
                    if good {
                        lemma_last_generation(
                            search.frame(),
                            store@,
                            search.entries(),
                            search.depth() as int,
                        );
                    }
                }
                return None;
            },
            Verdict::Expand => {},
        }
        let candidates = search.expand();
        search.merge(store, candidates);
    }
}

} // verus!
