//! Why the search finds a shortest program, and why a search that runs out
//! has overlooked none: the bookkeeping of what the visited store holds, and
//! the proof that a joint state on the way of any program that sorts is
//! never lost from sight.

use vstd::prelude::*;
use crate::canon::{concat_rows, key_of, lemma_concat_injective};
use crate::catalog::{catalog_ok, command_ok, scalar_command};
use crate::config::Config;
use crate::heuristic::state_over_budget;
use crate::machine::{Command, image, in_bounds, uniform, valid_row, valid_rows};
use crate::order::{
    listing,
    same_members,
    strictly_sorted,
    lemma_listing,
    lemma_listing_is,
    lemma_listing_of_members,
};
use crate::program::{
    from_catalog,
    program_in_bounds,
    replay,
    scalar_program,
    solves,
    lemma_image_keeps_valid,
    lemma_image_of_members,
    lemma_replay_of_members,
    lemma_replay_push,
    lemma_sortable_is_viable,
};
use crate::store::improves;
use crate::tables::{table_complete, lemma_over_budget_is_final};
use crate::viability::{state_goal, state_viable, lemma_goal_of_members};

verus! {

/// Rows of the machine are rows of the machine's width.
pub proof fn lemma_valid_uniform(cfg: Config, s: Seq<Seq<u8>>)
    requires
        valid_rows(cfg, s),
    ensures
        uniform(cfg, s),
{
    assert forall|i: int| 0 <= i < s.len() implies (#[trigger] s[i]).len() == cfg.width_spec() by {
        assert(valid_row(cfg, s[i]));
    }
}

/// A list with the same rows as a list of register files is one of register
/// files.
pub proof fn lemma_valid_of_members(cfg: Config, t: Seq<Seq<u8>>, s: Seq<Seq<u8>>)
    requires
        same_members(t, s),
        valid_rows(cfg, s),
    ensures
        valid_rows(cfg, t),
{
    assert forall|i: int| 0 <= i < t.len() implies valid_row(cfg, #[trigger] t[i]) by {
        assert(t.contains(t[i]));
        assert(s.contains(t[i]));
        let j = choose|j: int| 0 <= j < s.len() && s[j] == t[i];
        assert(valid_row(cfg, s[j]));
    }
}

/// A program of instructions that fit the machine makes register files of
/// register files.
pub proof fn lemma_replay_valid(cfg: Config, catalog: Seq<Command>, q: Seq<Command>, s: Seq<Seq<u8>>)
    requires
        cfg.wf(),
        catalog_ok(cfg, catalog),
        from_catalog(catalog, q),
        valid_rows(cfg, s),
    ensures
        valid_rows(cfg, replay(cfg, q, s)),
    decreases q.len(),
{
    if q.len() > 0 {
        let head = q.drop_last();
        assert(from_catalog(catalog, head)) by {
            assert forall|i: int| 0 <= i < head.len() implies catalog.contains(
                #[trigger] head[i],
            ) by {
                assert(head[i] == q[i]);
            }
        }
        lemma_replay_valid(cfg, catalog, head, s);
        assert(catalog.contains(q[q.len() - 1]));
        let j = choose|j: int| 0 <= j < catalog.len() && catalog[j] == q.last();
        assert(command_ok(cfg, catalog[j]));
        lemma_image_keeps_valid(cfg, q.last(), replay(cfg, head, s));
    }
}

/// Running a program is running its beginning and then the rest.
pub proof fn lemma_replay_split(cfg: Config, q: Seq<Command>, i: int, s: Seq<Seq<u8>>)
    requires
        0 <= i <= q.len(),
    ensures
        replay(cfg, q, s) == replay(cfg, q.skip(i), replay(cfg, q.take(i), s)),
    decreases q.len(),
{
    if i == q.len() {
        assert(q.take(i) =~= q);
        assert(q.skip(i).len() == 0);
    } else {
        let head = q.drop_last();
        lemma_replay_split(cfg, head, i, s);
        assert(head.take(i) =~= q.take(i));
        assert(q.skip(i).drop_last() =~= head.skip(i));
        assert(q.skip(i).last() == q.last());
    }
}

/// On a machine without lanes a program of catalog instructions is one of
/// the scalar machine.
pub proof fn lemma_catalog_is_scalar(cfg: Config, catalog: Seq<Command>, q: Seq<Command>)
    requires
        cfg.wf(),
        cfg.lanes == 0,
        catalog_ok(cfg, catalog),
        from_catalog(catalog, q),
    ensures
        scalar_program(cfg, q),
        program_in_bounds(cfg, q),
{
    assert forall|i: int| 0 <= i < q.len() implies scalar_command(cfg, #[trigger] q[i])
        && in_bounds(cfg, q[i]) by {
        assert(catalog.contains(q[i]));
        let j = choose|j: int| 0 <= j < catalog.len() && catalog[j] == q[i];
        assert(command_ok(cfg, catalog[j]));
    }
}

/// What a search is set up with.
pub struct Frame {
    /// The configuration.
    pub cfg: Config,
    /// The catalog.
    pub catalog: Seq<Command>,
    /// The rows of the initial joint state, in increasing order.
    pub origin: Seq<Seq<u8>>,
    /// The table of lower bounds, if the hard cutoff is used.
    pub bounds: Option<Map<Seq<u8>, u8>>,
}

/// The set-up under which the search overlooks nothing: a scalar machine, a
/// catalog that fits it, an initial joint state of register files listed in
/// increasing order, and a table of lower bounds, if any, that is complete.
pub open spec fn admissible(f: Frame) -> bool {
    &&& f.cfg.wf()
    &&& f.cfg.lanes == 0
    &&& catalog_ok(f.cfg, f.catalog)
    &&& valid_rows(f.cfg, f.origin)
    &&& strictly_sorted(f.origin)
    &&& match f.bounds {
        Some(table) => table_complete(f.cfg, f.catalog, table, f.cfg.max_len as int),
        None => true,
    }
}

/// The successor that catalog entry `k` makes of the joint state `s`,
/// reached by `l` instructions, is kept: it is viable and within the budget.
pub open spec fn keeps(f: Frame, s: Seq<Seq<u8>>, l: int, k: int) -> bool {
    let succ = image(f.cfg, f.catalog[k], s);
    &&& state_viable(f.cfg, succ)
    &&& match f.bounds {
        Some(table) => !state_over_budget(table, succ, (l + 1) as u8, f.cfg.max_len),
        None => true,
    }
}

/// The store holds a length of at most `bound` for the key.
pub open spec fn recorded_within(known: Map<Seq<u8>, u8>, key: Seq<u8>, bound: int) -> bool {
    known.contains_key(key) && known[key] <= bound
}

/// The successor that catalog entry `k` makes of `s`, if it is kept, is
/// recorded with a length of at most `l + 1`.
pub open spec fn clause(f: Frame, known: Map<Seq<u8>, u8>, s: Seq<Seq<u8>>, l: int, k: int) -> bool {
    keeps(f, s, l, k) ==> recorded_within(known, key_of(image(f.cfg, f.catalog[k], s)), l + 1)
}

/// `s` is a joint state of the machine's width, listed in increasing order,
/// with the key `key`.
pub open spec fn node(f: Frame, s: Seq<Seq<u8>>, key: Seq<u8>) -> bool {
    &&& uniform(f.cfg, s)
    &&& strictly_sorted(s)
    &&& concat_rows(s) == key
}

/// The joint state with this key was expanded at the length `l`: it is not
/// sorted, and every successor that is kept is recorded.
pub open spec fn closed(f: Frame, known: Map<Seq<u8>, u8>, key: Seq<u8>, l: int) -> bool {
    exists|s: Seq<Seq<u8>>|
        {
            &&& #[trigger] node(f, s, key)
            &&& !state_goal(f.cfg, s)
            &&& l < f.cfg.max_len
            &&& forall|k: int| 0 <= k < f.catalog.len() ==> #[trigger] clause(f, known, s, l, k)
        }
}

/// The joint state with this key was reached by a program of the longest
/// length allowed, and is not sorted.
pub open spec fn capped(f: Frame, key: Seq<u8>, l: int) -> bool {
    exists|s: Seq<Seq<u8>>|
        {
            &&& #[trigger] node(f, s, key)
            &&& !state_goal(f.cfg, s)
            &&& l >= f.cfg.max_len
        }
}

/// The key is accounted for: an entry with its recorded length is open, or
/// its joint state was expanded at that length, or it cannot be expanded.
pub open spec fn status(
    f: Frame,
    known: Map<Seq<u8>, u8>,
    open: Set<(Seq<u8>, int)>,
    key: Seq<u8>,
) -> bool {
    let l = known[key] as int;
    ||| open.contains((key, l))
    ||| closed(f, known, key, l)
    ||| capped(f, key, l)
}

/// The bookkeeping is in order: the initial joint state is recorded with
/// length 0, and every recorded key is accounted for.
pub open spec fn settled(f: Frame, known: Map<Seq<u8>, u8>, open: Set<(Seq<u8>, int)>) -> bool {
    &&& recorded_within(known, concat_rows(f.origin), 0)
    &&& forall|key: Seq<u8>| #[trigger] known.contains_key(key) ==> status(f, known, open, key)
}

/// Some open entry is no longer than `m`.
pub open spec fn some_open_within(open: Set<(Seq<u8>, int)>, m: int) -> bool {
    exists|p: (Seq<u8>, int)| #[trigger] open.contains(p) && p.1 <= m
}

/// The joint state that the first `i` instructions of a program reach, listed.
pub open spec fn on_the_way(f: Frame, q: Seq<Command>, i: int) -> Seq<Seq<u8>> {
    listing(replay(f.cfg, q.take(i), f.origin))
}

/// What is known of the joint states on the way of a program of catalog
/// instructions.
pub proof fn lemma_on_the_way(f: Frame, q: Seq<Command>, i: int)
    requires
        admissible(f),
        from_catalog(f.catalog, q),
        0 <= i <= q.len(),
    ensures
        uniform(f.cfg, on_the_way(f, q, i)),
        valid_rows(f.cfg, on_the_way(f, q, i)),
        strictly_sorted(on_the_way(f, q, i)),
        same_members(on_the_way(f, q, i), replay(f.cfg, q.take(i), f.origin)),
        from_catalog(f.catalog, q.take(i)),
        from_catalog(f.catalog, q.skip(i)),
{
    let head = q.take(i);
    let rest = q.skip(i);
    assert(from_catalog(f.catalog, head)) by {
        assert forall|j: int| 0 <= j < head.len() implies f.catalog.contains(#[trigger] head[j]) by {
            assert(head[j] == q[j]);
        }
    }
    assert(from_catalog(f.catalog, rest)) by {
        assert forall|j: int| 0 <= j < rest.len() implies f.catalog.contains(#[trigger] rest[j]) by {
            assert(rest[j] == q[j + i]);
        }
    }
    lemma_replay_valid(f.cfg, f.catalog, head, f.origin);
    lemma_listing(replay(f.cfg, head, f.origin));
    lemma_valid_of_members(f.cfg, on_the_way(f, q, i), replay(f.cfg, head, f.origin));
    lemma_valid_uniform(f.cfg, on_the_way(f, q, i));
}

/// From a joint state on the way of a program that sorts, the next
/// instruction of the program leads to a successor that is kept.
pub proof fn lemma_way_is_kept(f: Frame, q: Seq<Command>, i: int, l: int, k: int)
    requires
        admissible(f),
        from_catalog(f.catalog, q),
        q.len() <= f.cfg.max_len,
        solves(f.cfg, q, f.origin),
        0 <= i < q.len(),
        0 <= l <= i,
        0 <= k < f.catalog.len(),
        f.catalog[k] == q[i],
    ensures
        keeps(f, on_the_way(f, q, i), l, k),
        listing(image(f.cfg, f.catalog[k], on_the_way(f, q, i))) == on_the_way(f, q, i + 1),
{
    let cfg = f.cfg;
    let c = q[i];
    let s = on_the_way(f, q, i);
    let head = q.take(i);
    let more = q.take(i + 1);
    let rest = q.skip(i + 1);
    let reached = replay(cfg, head, f.origin);
    let next = replay(cfg, more, f.origin);
    let succ = image(cfg, c, s);
    lemma_on_the_way(f, q, i);
    lemma_on_the_way(f, q, i + 1);
    assert(more =~= head.push(c));
    lemma_replay_push(cfg, head, c, f.origin);
    lemma_image_of_members(cfg, c, s, reached);
    assert(same_members(succ, next));
    lemma_listing_of_members(succ, next);
    lemma_replay_split(cfg, q, i + 1, f.origin);
    lemma_replay_of_members(cfg, rest, succ, next);
    lemma_goal_of_members(cfg, replay(cfg, rest, succ), replay(cfg, rest, next));
    assert(solves(cfg, rest, succ));
    lemma_catalog_is_scalar(cfg, f.catalog, rest);
    assert(command_ok(cfg, f.catalog[k]));
    lemma_image_keeps_valid(cfg, c, s);
    lemma_valid_uniform(cfg, succ);
    lemma_sortable_is_viable(cfg, rest, succ);
    match f.bounds {
        Some(table) => {
            if state_over_budget(table, succ, (l + 1) as u8, cfg.max_len) {
                lemma_over_budget_is_final(cfg, f.catalog, table, succ, (l + 1) as u8, rest);
            }
        },
        None => {},
    }
}

/// Walking along a program that sorts: the joint state that its first `i`
/// instructions reach is recorded with a length of at most `i`, unless some
/// open entry is no longer than the program.
pub proof fn lemma_walk(
    f: Frame,
    known: Map<Seq<u8>, u8>,
    open: Set<(Seq<u8>, int)>,
    q: Seq<Command>,
    i: int,
)
    requires
        admissible(f),
        settled(f, known, open),
        from_catalog(f.catalog, q),
        q.len() <= f.cfg.max_len,
        solves(f.cfg, q, f.origin),
        0 <= i <= q.len(),
    ensures
        some_open_within(open, q.len() as int) || recorded_within(
            known,
            concat_rows(on_the_way(f, q, i)),
            i,
        ),
    decreases i,
{
    if i == 0 {
        assert(q.take(0) =~= Seq::<Command>::empty());
        assert(same_members(f.origin, f.origin));
        lemma_listing_is(f.origin, f.origin);
    } else {
        lemma_walk(f, known, open, q, i - 1);
        if !some_open_within(open, q.len() as int) {
            let s = on_the_way(f, q, i - 1);
            let key = concat_rows(s);
            let l = known[key] as int;
            lemma_on_the_way(f, q, i - 1);
            assert(status(f, known, open, key));
            if open.contains((key, l)) {
                assert(some_open_within(open, q.len() as int));
            } else if closed(f, known, key, l) {
                let t = choose|t: Seq<Seq<u8>>|
                    {
                        &&& #[trigger] node(f, t, key)
                        &&& !state_goal(f.cfg, t)
                        &&& l < f.cfg.max_len
                        &&& forall|k: int|
                            0 <= k < f.catalog.len() ==> #[trigger] clause(f, known, t, l, k)
                    };
                lemma_concat_injective(f.cfg, s, t);
                assert(f.catalog.contains(q[i - 1]));
                let k = choose|k: int| 0 <= k < f.catalog.len() && f.catalog[k] == q[i - 1];
                lemma_way_is_kept(f, q, i - 1, l, k);
                assert(clause(f, known, s, l, k));
            } else {
                assert(capped(f, key, l));
            }
        }
    }
}

/// The heart of the matter: as long as the bookkeeping is in order, every
/// program of catalog instructions, no longer than allowed, that sorts the
/// initial joint state is at least as long as some open entry. With no open
/// entry there is no such program; and an entry that is no longer than any
/// other open entry is no longer than any such program.
pub proof fn lemma_some_open_is_short(
    f: Frame,
    known: Map<Seq<u8>, u8>,
    open: Set<(Seq<u8>, int)>,
    q: Seq<Command>,
)
    requires
        admissible(f),
        settled(f, known, open),
        from_catalog(f.catalog, q),
        q.len() <= f.cfg.max_len,
        solves(f.cfg, q, f.origin),
    ensures
        some_open_within(open, q.len() as int),
{
    let m = q.len() as int;
    lemma_walk(f, known, open, q, m);
    if !some_open_within(open, m) {
        let s = on_the_way(f, q, m);
        let key = concat_rows(s);
        let l = known[key] as int;
        lemma_on_the_way(f, q, m);
        assert(q.take(m) =~= q);
        lemma_goal_of_members(f.cfg, s, replay(f.cfg, q, f.origin));
        assert(state_goal(f.cfg, s));
        assert(status(f, known, open, key));
        if open.contains((key, l)) {
            assert(some_open_within(open, m));
        } else if closed(f, known, key, l) {
            let t = choose|t: Seq<Seq<u8>>|
                {
                    &&& #[trigger] node(f, t, key)
                    &&& !state_goal(f.cfg, t)
                    &&& l < f.cfg.max_len
                    &&& forall|k: int|
                        0 <= k < f.catalog.len() ==> #[trigger] clause(f, known, t, l, k)
                };
            lemma_concat_injective(f.cfg, s, t);
        } else {
            let t = choose|t: Seq<Seq<u8>>|
                {
                    &&& #[trigger] node(f, t, key)
                    &&& !state_goal(f.cfg, t)
                    &&& l >= f.cfg.max_len
                };
            lemma_concat_injective(f.cfg, s, t);
        }
    }
}

/// What the store holds for a key.
pub open spec fn lookup(known: Map<Seq<u8>, u8>, key: Seq<u8>) -> Option<u8> {
    if known.contains_key(key) {
        Some(known[key])
    } else {
        None
    }
}

/// The store `b` holds every key of `a`, none with a larger length.
pub open spec fn below(b: Map<Seq<u8>, u8>, a: Map<Seq<u8>, u8>) -> bool {
    forall|key: Seq<u8>| #[trigger] a.contains_key(key) ==> b.contains_key(key) && b[key] <= a[key]
}

/// Every open entry is recorded with a length that is not larger than its
/// own.
pub open spec fn bounded(known: Map<Seq<u8>, u8>, open: Set<(Seq<u8>, int)>) -> bool {
    forall|p: (Seq<u8>, int)| #[trigger] open.contains(p) ==> recorded_within(known, p.0, p.1)
}

/// No program of catalog instructions, within the longest length allowed,
/// sorts the initial joint state.
pub open spec fn unsolvable(f: Frame) -> bool {
    forall|q: Seq<Command>|
        from_catalog(f.catalog, q) && q.len() <= f.cfg.max_len ==> !#[trigger] solves(
            f.cfg,
            q,
            f.origin,
        )
}

/// No program of catalog instructions, within the longest length allowed,
/// that sorts the initial joint state is shorter than `n`.
pub open spec fn shortest(f: Frame, n: int) -> bool {
    forall|q: Seq<Command>|
        from_catalog(f.catalog, q) && q.len() <= f.cfg.max_len && #[trigger] solves(
            f.cfg,
            q,
            f.origin,
        ) ==> n <= q.len()
}

/// A clause stays true when lengths in the store get smaller.
pub proof fn lemma_clause_monotone(
    f: Frame,
    known: Map<Seq<u8>, u8>,
    known2: Map<Seq<u8>, u8>,
    s: Seq<Seq<u8>>,
    l: int,
    k: int,
)
    requires
        clause(f, known, s, l, k),
        below(known2, known),
    ensures
        clause(f, known2, s, l, k),
{
    if keeps(f, s, l, k) {
        assert(known.contains_key(key_of(image(f.cfg, f.catalog[k], s))));
    }
}

/// A joint state that was expanded stays so when lengths in the store get
/// smaller.
pub proof fn lemma_closed_monotone(
    f: Frame,
    known: Map<Seq<u8>, u8>,
    known2: Map<Seq<u8>, u8>,
    key: Seq<u8>,
    l: int,
)
    requires
        closed(f, known, key, l),
        below(known2, known),
    ensures
        closed(f, known2, key, l),
{
    let s = choose|s: Seq<Seq<u8>>|
        {
            &&& #[trigger] node(f, s, key)
            &&& !state_goal(f.cfg, s)
            &&& l < f.cfg.max_len
            &&& forall|k: int| 0 <= k < f.catalog.len() ==> #[trigger] clause(f, known, s, l, k)
        };
    assert forall|k: int| 0 <= k < f.catalog.len() implies #[trigger] clause(f, known2, s, l, k) by {
        assert(clause(f, known, s, l, k));
        lemma_clause_monotone(f, known, known2, s, l, k);
    }
    assert(node(f, s, key));
}

/// The bookkeeping stays in order when entries are opened.
pub proof fn lemma_settled_grow(
    f: Frame,
    known: Map<Seq<u8>, u8>,
    open: Set<(Seq<u8>, int)>,
    open2: Set<(Seq<u8>, int)>,
)
    requires
        settled(f, known, open),
        forall|p: (Seq<u8>, int)| #[trigger] open.contains(p) ==> open2.contains(p),
    ensures
        settled(f, known, open2),
{
    assert forall|key: Seq<u8>| #[trigger] known.contains_key(key) implies status(
        f,
        known,
        open2,
        key,
    ) by {
        assert(status(f, known, open, key));
    }
}

/// The bookkeeping stays in order when an entry leaves the open set that is
/// stale, or whose joint state was expanded, or cannot be expanded.
pub proof fn lemma_settled_drop(
    f: Frame,
    known: Map<Seq<u8>, u8>,
    open: Set<(Seq<u8>, int)>,
    open2: Set<(Seq<u8>, int)>,
    p: (Seq<u8>, int),
)
    requires
        settled(f, known, open),
        forall|x: (Seq<u8>, int)| #[trigger] open.contains(x) && x != p ==> open2.contains(x),
        known.contains_key(p.0) && known[p.0] == p.1 ==> closed(f, known, p.0, p.1) || capped(
            f,
            p.0,
            p.1,
        ),
    ensures
        settled(f, known, open2),
{
    assert forall|key: Seq<u8>| #[trigger] known.contains_key(key) implies status(
        f,
        known,
        open2,
        key,
    ) by {
        assert(status(f, known, open, key));
        let l = known[key] as int;
        if open.contains((key, l)) {
            if (key, l) == p {
                assert(p.0 == key && p.1 == l);
            }
        }
    }
}

/// The bookkeeping stays in order when a smaller length is recorded for a
/// key and an entry with that length is opened.
pub proof fn lemma_settled_record(
    f: Frame,
    known: Map<Seq<u8>, u8>,
    open: Set<(Seq<u8>, int)>,
    open2: Set<(Seq<u8>, int)>,
    key: Seq<u8>,
    l: u8,
)
    requires
        settled(f, known, open),
        improves(lookup(known, key), l),
        forall|p: (Seq<u8>, int)| #[trigger] open.contains(p) ==> open2.contains(p),
        open2.contains((key, l as int)),
    ensures
        settled(f, known.insert(key, l), open2),
        below(known.insert(key, l), known),
{
    let known2 = known.insert(key, l);
    assert(below(known2, known));
    assert forall|other: Seq<u8>| #[trigger] known2.contains_key(other) implies status(
        f,
        known2,
        open2,
        other,
    ) by {
        if other != key {
            assert(status(f, known, open, other));
            let lo = known[other] as int;
            if open.contains((other, lo)) {
            } else if closed(f, known, other, lo) {
                lemma_closed_monotone(f, known, known2, other, lo);
            }
        }
    }
}

} // verus!
