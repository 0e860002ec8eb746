//! The search driver: a best-first search over joint states, written as a
//! state machine. The driver decides; whoever runs it keeps the visited
//! store. Each step takes the answer to what the driver last asked for and
//! hands out what it asks for next: to look a key up, to record a length for
//! a key, to take a solution, or to stop.

use vstd::prelude::*;
use crate::canon::{concat_rows, key_of, state_positions, normalize};
use crate::catalog::{
    ConfigError,
    catalog_ok,
    check_catalog,
    check_rows,
    command_ok,
    lemma_ok_in_bounds,
};
use crate::config::Config;
use crate::frontier::{OpenQueue, queue_entries, queue_new, queue_pop, queue_push};
use crate::heuristic::{over_budget, pattern_count, patterns, state_over_budget};
use crate::machine::{Command, apply_all, image, uniform, valid_row, valid_rows};
use crate::optimal::{
    Frame,
    admissible,
    bounded,
    capped,
    clause,
    closed,
    lookup,
    node,
    recorded_within,
    settled,
    shortest,
    unsolvable,
    lemma_clause_monotone,
    lemma_settled_drop,
    lemma_settled_grow,
    lemma_settled_record,
    lemma_some_open_is_short,
};
use crate::order::{
    State,
    rows,
    is_listing_of,
    listing,
    same_members,
    strictly_sorted,
    lemma_listing_is,
    lemma_members_chain,
};
use crate::program::{
    from_catalog,
    replay,
    solves,
    lemma_image_of_members,
    lemma_replay_push,
    lemma_listing_uniform,
};
use crate::signature::{renaming_key, signatures};
use crate::store::{MemoryStore, improves, superseded, should_record, is_stale};
use crate::trace::{Trace, extract_program};
use crate::viability::{is_goal, viable, state_goal, state_viable, lemma_goal_of_members};

verus! {

/// By what an open entry is ranked.
#[derive(Clone, Copy, Debug, PartialEq, Eq, Structural)]
pub enum Evaluation {
    /// By the length of its program: shortest first.
    Dijkstra,
    /// By the length of its program and the ranking heuristic together.
    AStar,
    /// By the ranking heuristic alone.
    Greedy,
}

/// How a search ended.
#[derive(Clone, Copy, Debug, PartialEq, Eq, Structural)]
pub enum Outcome {
    /// At least one program was found.
    SolutionFound,
    /// The open set ran empty: no program within the longest length allowed
    /// was found.
    Exhausted,
    /// The search was given up: the visited store failed, or an answer did
    /// not fit what was asked.
    Aborted,
}

/// Where the driver stands.
#[derive(Clone, Copy, Debug, PartialEq, Eq, Structural)]
pub enum Phase {
    /// Nothing was asked yet.
    Idle,
    /// The initial joint state is being recorded.
    Seeding,
    /// An entry was popped and its key is being looked up.
    Checking,
    /// A solution was handed out.
    Emitting,
    /// The key of a successor is being looked up.
    Probing,
    /// The length of a successor is being recorded.
    Recording,
    /// The search is over.
    Done,
}

/// What the driver is told.
#[derive(Clone, Copy, Debug, PartialEq, Eq, Structural)]
pub enum Event {
    /// Begin the search.
    Start,
    /// What the visited store holds for the key that was asked for.
    Looked(Option<u8>),
    /// The length was recorded.
    Stored,
    /// The solution was taken.
    Emitted,
    /// The visited store failed.
    Failed,
}

/// What the driver asks for.
#[derive(Debug)]
pub enum Action {
    /// Look this key up in the visited store.
    Lookup(Vec<u8>),
    /// Record this length for this key in the visited store.
    Store(Vec<u8>, u8),
    /// Take this program: it is a solution.
    Emit(Vec<Command>),
    /// Stop: the search is over.
    Finish(Outcome),
}

/// The settings of a search.
#[derive(Clone, Copy, Debug, PartialEq, Eq, Structural)]
pub struct Options {
    /// By what the open entries are ranked.
    pub evaluation: Evaluation,
    /// Whether the search goes on after the first solution. In either mode
    /// a successor counts as a duplicate where the visited store holds an
    /// equal or a smaller length for its joint state: of the programs that
    /// reach one joint state with one length, only the first is followed.
    pub all_solutions: bool,
    /// Whether the hard cutoff is used: where this is not set a driver
    /// drops the table of lower bounds that it is handed, and none is built
    /// for it. The table is built for a machine without lanes that has at
    /// most ten values and at most four scratch registers; on any other
    /// machine the search runs without the cutoff, and finds the same
    /// programs.
    pub cutoff: bool,
    /// Whether joint states are told apart by the signatures of their rows
    /// only. This is the approximate mode: it visits fewer joint states, and
    /// it may overlook programs, since joint states that are far from each
    /// other can have the same signatures.
    pub approximate: bool,
}

/// The key by which a joint state is looked up and recorded: the canonical
/// key, or in the approximate mode the key made of the signatures of its
/// rows.
pub open spec fn state_key(cfg: Config, approximate: bool, s: Seq<Seq<u8>>) -> Seq<u8> {
    if approximate {
        key_of(signatures(cfg, s))
    } else {
        concat_rows(s)
    }
}

/// Computes the key by which a joint state, listed in increasing order, is
/// looked up and recorded.
pub fn key_for(cfg: &Config, approximate: bool, state: &State) -> (key: Vec<u8>)
    requires
        cfg.wf(),
        approximate ==> cfg.regs_spec() <= 255,
        uniform(*cfg, rows(*state)),
    ensures
        key@ == state_key(*cfg, approximate, rows(*state)),
{
    if approximate {
        renaming_key(cfg, state)
    } else {
        state_positions(state)
    }
}

/// An open entry: a joint state, the trace node of the program that led to
/// it, and the length of that program.
pub struct OpenEntry {
    /// The joint state, its rows in increasing order.
    pub state: State,
    /// The program that led to it.
    pub node: Option<usize>,
    /// The length of that program.
    pub length: u8,
}

/// A counter that has run full stays full.
pub open spec fn bumped(x: u64) -> u64 {
    if x < u64::MAX {
        (x + 1) as u64
    } else {
        x
    }
}

/// A counter after `n` more counts.
pub open spec fn bumped_by(x: u64, n: int) -> u64 {
    if x + n <= u64::MAX {
        (x + n) as u64
    } else {
        u64::MAX
    }
}

/// How many programs of at most `left` instructions there are, with `c`
/// instructions to choose from: so many entries can come of an entry that
/// has `left` instructions to go, itself among them.
pub open spec fn weight(c: nat, left: nat) -> nat
    decreases left,
{
    if left == 0 {
        1
    } else {
        1 + c * weight(c, (left - 1) as nat)
    }
}

/// The weight of an entry whose program has the given length.
pub open spec fn weight_at(c: nat, max: nat, length: u8) -> nat {
    weight(c, (max - length) as nat)
}

/// The weights of the entries in the queue whose numbers are below `n`,
/// added up.
pub open spec fn total_weight(
    queue: Map<usize, u64>,
    entries: Seq<OpenEntry>,
    c: nat,
    max: nat,
    n: nat,
) -> nat
    decreases n,
{
    if n == 0 {
        0
    } else {
        total_weight(queue, entries, c, max, (n - 1) as nat) + if queue.contains_key(
            (n - 1) as usize,
        ) {
            weight_at(c, max, entries[n - 1].length)
        } else {
            0
        }
    }
}

/// Every weight is at least one.
pub proof fn lemma_weight_positive(c: nat, left: nat)
    ensures
        weight(c, left) >= 1,
{
}

/// The weight of the successors of an entry that may still be opened when
/// the cursor stands at `k`, and one for the entry itself.
pub open spec fn busy(c: nat, max: nat, length: u8, k: int) -> nat {
    ((c - k + 1) * weight_at(c, max, (length + 1) as u8) + 1) as nat
}

/// An entry that can be expanded weighs as much as all its successors and
/// one more, and the further the cursor stands the less is left.
pub proof fn lemma_busy(c: nat, max: nat, length: u8, k: int, j: int)
    requires
        length < max,
        max <= u8::MAX,
        1 <= k <= j <= c,
    ensures
        busy(c, max, length, 1) == weight_at(c, max, length),
        busy(c, max, length, j) <= busy(c, max, length, k),
        k < j ==> busy(c, max, length, j) < busy(c, max, length, k),
        busy(c, max, length, k) == busy(c, max, length, k + 1) + weight_at(
            c,
            max,
            (length + 1) as u8,
        ),
        busy(c, max, length, j) > weight_at(c, max, (length + 1) as u8),
{
    let w = weight_at(c, max, (length + 1) as u8);
    lemma_weight_positive(c, (max - (length + 1)) as nat);
    assert(weight_at(c, max, length) == 1 + c * w) by {
        assert((max - length) as nat - 1 == (max - (length + 1)) as nat);
    }
    assert((c - j + 1) * w <= (c - k + 1) * w) by (nonlinear_arith)
        requires
            c - j + 1 <= c - k + 1,
            w >= 0,
    ;
    if k < j {
        assert((c - j + 1) * w < (c - k + 1) * w) by (nonlinear_arith)
            requires
                c - j + 1 < c - k + 1,
                w >= 1,
        ;
    }
    assert((c - k + 1) * w == (c - (k + 1) + 1) * w + w) by (nonlinear_arith);
    assert((c - j + 1) * w >= w) by (nonlinear_arith)
        requires
            c - j + 1 >= 1,
            w >= 0,
    ;
    assert((c - 1 + 1) * w == c * w);
}

/// The sum depends on the entries in the queue and on their lengths only.
pub proof fn lemma_total_same(
    q1: Map<usize, u64>,
    e1: Seq<OpenEntry>,
    q2: Map<usize, u64>,
    e2: Seq<OpenEntry>,
    c: nat,
    max: nat,
    n: nat,
)
    requires
        n <= usize::MAX,
        forall|i: usize| i < n ==> q1.contains_key(i) == q2.contains_key(i),
        forall|i: usize| i < n && q1.contains_key(i) ==> e1[i as int].length == e2[i as int].length,
    ensures
        total_weight(q1, e1, c, max, n) == total_weight(q2, e2, c, max, n),
    decreases n,
{
    if n > 0 {
        lemma_total_same(q1, e1, q2, e2, c, max, (n - 1) as nat);
        let i = (n - 1) as usize;
        assert(q1.contains_key(i) == q2.contains_key(i));
    }
}

/// An entry that leaves the queue takes its weight out of the sum.
pub proof fn lemma_total_without(
    q1: Map<usize, u64>,
    e1: Seq<OpenEntry>,
    q2: Map<usize, u64>,
    e2: Seq<OpenEntry>,
    c: nat,
    max: nat,
    n: nat,
    id: usize,
)
    requires
        n <= usize::MAX,
        q1.contains_key(id),
        !q2.contains_key(id),
        forall|i: usize| i < n && i != id ==> q1.contains_key(i) == q2.contains_key(i),
        forall|i: usize|
            i < n && i != id && q1.contains_key(i) ==> e1[i as int].length == e2[i as int].length,
    ensures
        total_weight(q1, e1, c, max, n) == total_weight(q2, e2, c, max, n) + if id < n {
            weight_at(c, max, e1[id as int].length)
        } else {
            0
        },
    decreases n,
{
    if n > 0 {
        lemma_total_without(q1, e1, q2, e2, c, max, (n - 1) as nat, id);
        let i = (n - 1) as usize;
        if i != id {
            assert(q1.contains_key(i) == q2.contains_key(i));
        }
    }
}

/// Whether a joint state is over the budget does not depend on the order of
/// its rows, nor on how often one occurs.
pub proof fn lemma_over_budget_of_members(
    s: Seq<Seq<u8>>,
    t: Seq<Seq<u8>>,
    bounds: Option<Map<Seq<u8>, u8>>,
    length: u8,
    max_len: u8,
)
    requires
        same_members(s, t),
    ensures
        match bounds {
            Some(table) => state_over_budget(table, s, length, max_len) == state_over_budget(
                table,
                t,
                length,
                max_len,
            ),
            None => true,
        },
{
    match bounds {
        Some(table) => {
            if state_over_budget(table, s, length, max_len) {
                let i = choose|i: int|
                    0 <= i < s.len() && crate::heuristic::row_over_budget(
                        table,
                        #[trigger] s[i],
                        length,
                        max_len,
                    );
                assert(s.contains(s[i]));
                let j = choose|j: int| 0 <= j < t.len() && t[j] == s[i];
                assert(crate::heuristic::row_over_budget(table, t[j], length, max_len));
            }
            if state_over_budget(table, t, length, max_len) {
                let i = choose|i: int|
                    0 <= i < t.len() && crate::heuristic::row_over_budget(
                        table,
                        #[trigger] t[i],
                        length,
                        max_len,
                    );
                assert(t.contains(t[i]));
                let j = choose|j: int| 0 <= j < s.len() && s[j] == t[i];
                assert(crate::heuristic::row_over_budget(table, s[j], length, max_len));
            }
        },
        None => {},
    }
}

/// The rank of an open entry: the smaller, the sooner it is popped.
pub open spec fn score_of(evaluation: Evaluation, length: u8, patterns: nat) -> u64 {
    match evaluation {
        Evaluation::Dijkstra => length as u64,
        Evaluation::AStar => if length + patterns <= u64::MAX {
            (length + patterns) as u64
        } else {
            u64::MAX
        },
        Evaluation::Greedy => if patterns <= u64::MAX {
            patterns as u64
        } else {
            u64::MAX
        },
    }
}

/// The rank of an open entry with this joint state and this length.
pub open spec fn rank_of(cfg: Config, evaluation: Evaluation, s: Seq<Seq<u8>>, length: u8) -> u64 {
    score_of(evaluation, length, patterns(cfg, s).to_set().len())
}

/// An open entry as the search sees it: its joint state, the length of its
/// program, and its program.
pub type Open = (Seq<Seq<u8>>, u8, Seq<Command>);

/// Computes the rank of an open entry.
pub fn score(cfg: &Config, evaluation: Evaluation, state: &State, length: u8) -> (s: u64)
    requires
        forall|i: int| 0 <= i < state.len() ==> (#[trigger] rows(*state)[i]).len() >= cfg.numbers,
    ensures
        s == score_of(evaluation, length, patterns(*cfg, rows(*state)).to_set().len()),
{
    match evaluation {
        Evaluation::Dijkstra => length as u64,
        Evaluation::AStar => {
            let h: u64 = pattern_count(cfg, state) as u64;
            match h.checked_add(length as u64) {
                Some(total) => total,
                None => u64::MAX,
            }
        },
        Evaluation::Greedy => pattern_count(cfg, state) as u64,
    }
}

/// Counts one more, unless the counter is full.
fn bump(x: u64) -> (y: u64)
    ensures
        y == bumped(x),
{
    if x < u64::MAX {
        x + 1
    } else {
        x
    }
}

/// The entry is what the search may hold: its joint state is listed in
/// increasing order, the trace holds its handle, and it is what its program,
/// made of catalog instructions and no longer than allowed, makes of the
/// initial joint state.
pub open spec fn entry_ok(
    cfg: Config,
    catalog: Seq<Command>,
    origin: Seq<Seq<u8>>,
    trace: Trace,
    e: OpenEntry,
) -> bool {
    let program = trace.program(e.node);
    &&& uniform(cfg, rows(e.state))
    &&& strictly_sorted(rows(e.state))
    &&& trace.has(e.node)
    &&& e.length == program.len()
    &&& e.length <= cfg.max_len
    &&& from_catalog(catalog, program)
    &&& same_members(rows(e.state), replay(cfg, program, origin))
}

/// An entry that is in order stays so as long as the trace holds its handle
/// and its program.
pub proof fn lemma_entry_stable(
    cfg: Config,
    catalog: Seq<Command>,
    origin: Seq<Seq<u8>>,
    before: Trace,
    after: Trace,
    e: OpenEntry,
)
    requires
        entry_ok(cfg, catalog, origin, before, e),
        after.has(e.node),
        after.program(e.node) == before.program(e.node),
    ensures
        entry_ok(cfg, catalog, origin, after, e),
{
}

/// The sizes can be worked with; in the approximate mode a register number
/// must fit a byte.
pub open spec fn sizes_ok(cfg: Config, options: Options) -> bool {
    cfg.wf() && (options.approximate ==> cfg.regs_spec() <= 255)
}

/// The search driver.
pub struct Driver {
    cfg: Config,
    options: Options,
    catalog: Vec<Command>,
    table: Option<MemoryStore>,
    origin: Ghost<Seq<Seq<u8>>>,
    known: Ghost<Map<Seq<u8>, u8>>,
    seed: State,
    trace: Trace,
    entries: Vec<OpenEntry>,
    queue: OpenQueue,
    phase: Phase,
    current: OpenEntry,
    next_cmd: usize,
    candidate: State,
    outcome: Outcome,
    visited: u64,
    duplicate: u64,
    cut: u64,
    solutions: u64,
}

impl Driver {
    /// The configuration of the search.
    pub closed spec fn config(&self) -> Config {
        self.cfg
    }

    /// The settings of the search.
    pub closed spec fn settings(&self) -> Options {
        self.options
    }

    /// The catalog of the search.
    pub closed spec fn instructions(&self) -> Seq<Command> {
        self.catalog@
    }

    /// The rows of the initial joint state, in increasing order.
    pub closed spec fn origin(&self) -> Seq<Seq<u8>> {
        self.origin@
    }

    /// The table of lower bounds that the hard cutoff goes by, if it has one.
    pub closed spec fn bounds(&self) -> Option<Map<Seq<u8>, u8>> {
        match self.table {
            Some(t) => Some(t@),
            None => None,
        }
    }

    /// Where the driver stands.
    pub closed spec fn phase(&self) -> Phase {
        self.phase
    }

    /// How the search ended, once it is over.
    pub closed spec fn outcome(&self) -> Outcome {
        self.outcome
    }

    /// How many entries were popped.
    pub closed spec fn visited_count(&self) -> u64 {
        self.visited
    }

    /// How many entries and successors were dropped as stale or duplicate.
    pub closed spec fn duplicate_count(&self) -> u64 {
        self.duplicate
    }

    /// How many successors were cut as not viable or over the budget.
    pub closed spec fn cut_count(&self) -> u64 {
        self.cut
    }

    /// How many solutions were handed out.
    pub closed spec fn solution_count(&self) -> u64 {
        self.solutions
    }

    /// The rows of the popped entry.
    pub closed spec fn popped(&self) -> Seq<Seq<u8>> {
        rows(self.current.state)
    }

    /// The length of the program of the popped entry.
    pub closed spec fn popped_length(&self) -> u8 {
        self.current.length
    }

    /// The program of the popped entry.
    pub closed spec fn popped_program(&self) -> Seq<Command> {
        self.trace.program(self.current.node)
    }

    /// The rows of the successor that is being looked up or recorded.
    pub closed spec fn successor(&self) -> Seq<Seq<u8>> {
        rows(self.candidate)
    }

    /// The number of the catalog entry after the one that made the
    /// successor.
    pub closed spec fn cursor(&self) -> usize {
        self.next_cmd
    }

    /// The rows whose key the driver has asked about.
    pub open spec fn pending(&self) -> Seq<Seq<u8>> {
        match self.phase() {
            Phase::Checking => self.popped(),
            Phase::Probing => self.successor(),
            Phase::Recording => self.successor(),
            _ => self.origin(),
        }
    }

    /// The length that the driver has asked to record.
    pub open spec fn pending_length(&self) -> int {
        match self.phase() {
            Phase::Recording => self.popped_length() + 1,
            _ => 0,
        }
    }

    /// The weights of the entries in the queue, added up.
    pub closed spec fn open_total(&self) -> nat {
        total_weight(
            queue_entries(self.queue),
            self.entries@,
            self.catalog@.len(),
            self.cfg.max_len as nat,
            self.entries@.len(),
        )
    }

    /// How many entries the search can still come to at most: the weights of
    /// the open entries and of the entry that is worked on. No step makes it
    /// larger, and a search is over before it is used up.
    pub closed spec fn work_left(&self) -> nat {
        let c = self.catalog@.len();
        let max = self.cfg.max_len as nat;
        match self.phase {
            Phase::Idle => self.open_total() + weight(c, max),
            Phase::Seeding => self.open_total() + weight(c, max),
            Phase::Checking => self.open_total() + weight_at(c, max, self.current.length),
            Phase::Emitting => self.open_total() + weight_at(c, max, self.current.length),
            Phase::Probing => self.open_total() + busy(
                c,
                max,
                self.current.length,
                self.next_cmd as int,
            ),
            Phase::Recording => self.open_total() + busy(
                c,
                max,
                self.current.length,
                self.next_cmd as int,
            ),
            Phase::Done => 0,
        }
    }

    /// How many steps the driver can take at most before it pops the next
    /// entry or stops.
    pub open spec fn phase_left(&self) -> nat {
        let c = self.instructions().len();
        match self.phase() {
            Phase::Idle => 2 * c + 6,
            Phase::Seeding => 2 * c + 5,
            Phase::Checking => 2 * c + 4,
            Phase::Emitting => 2 * c + 3,
            Phase::Probing => (2 * (c - self.cursor()) + 2) as nat,
            Phase::Recording => (2 * (c - self.cursor()) + 1) as nat,
            Phase::Done => 0,
        }
    }

    /// The driver came closer to the end of the search.
    pub open spec fn nearer(&self, before: &Driver) -> bool {
        ||| self.work_left() < before.work_left()
        ||| (self.work_left() == before.work_left() && self.phase_left() < before.phase_left())
    }

    /// The parts of the driver that do not depend on where it stands are in
    /// order: the sizes, the catalog, the trace, and every open entry.
    pub closed spec fn core_ok(&self) -> bool {
        &&& self.cfg.wf()
        &&& self.options.approximate ==> self.cfg.regs_spec() <= 255
        &&& catalog_ok(self.cfg, self.catalog@)
        &&& uniform(self.cfg, self.origin@)
        &&& strictly_sorted(self.origin@)
        &&& self.trace.wf()
        &&& self.queue_ok()
    }

    /// Every entry in the queue is in order, and no two of them have the
    /// same trace node.
    pub closed spec fn queue_ok(&self) -> bool {
        &&& forall|id: usize| #[trigger]
            queue_entries(self.queue).contains_key(id) ==> id < self.entries.len() && entry_ok(
                self.cfg,
                self.catalog@,
                self.origin@,
                self.trace,
                self.entries@[id as int],
            )
        &&& forall|a: usize, b: usize|
            #![trigger queue_entries(self.queue).contains_key(a), queue_entries(self.queue).contains_key(b)]
            queue_entries(self.queue).contains_key(a) && queue_entries(self.queue).contains_key(b)
                && a != b && self.entries@[a as int].node is Some ==> self.entries@[a as int].node
                != self.entries@[b as int].node
        &&& self.ranked()
    }

    /// The open entries.
    pub closed spec fn open_view(&self) -> Set<Open> {
        Set::new(
            |t: Open|
                exists|id: usize| #[trigger]
                    queue_entries(self.queue).contains_key(id) && self.as_open(id) == t,
        )
    }

    /// The entry with the number `id`, as the search sees it.
    pub closed spec fn as_open(&self, id: usize) -> Open {
        (
            rows(self.entries@[id as int].state),
            self.entries@[id as int].length,
            self.trace.program(self.entries@[id as int].node),
        )
    }

    /// The priority of every entry in the queue is what its rank makes it:
    /// the smaller the rank, the greater the priority.
    pub closed spec fn ranked(&self) -> bool {
        forall|id: usize| #[trigger]
            queue_entries(self.queue).contains_key(id) ==> queue_entries(self.queue)[id]
                == u64::MAX - rank_of(
                self.cfg,
                self.options.evaluation,
                rows(self.entries@[id as int].state),
                self.entries@[id as int].length,
            )
    }

    /// The rank of an open entry in this search.
    pub open spec fn rank(&self, t: Open) -> u64 {
        rank_of(self.config(), self.settings().evaluation, t.0, t.1)
    }

    /// The popped entry as the search sees it.
    pub open spec fn popped_open(&self) -> Open {
        (self.popped(), self.popped_length(), self.popped_program())
    }

    /// The popped entry was taken from the entries `avail`: it was one of
    /// them, none of them had a smaller rank, and the others are the open
    /// entries now.
    pub open spec fn popped_from(&self, avail: Set<Open>) -> bool {
        let t = self.popped_open();
        &&& avail.contains(t)
        &&& forall|x: Open| #[trigger] avail.contains(x) ==> self.rank(x) >= self.rank(t)
        &&& forall|x: Open| #[trigger] avail.contains(x) && x != t ==> self.open_view().contains(x)
        &&& forall|x: Open| #[trigger] self.open_view().contains(x) ==> avail.contains(x)
    }

    /// The driver went on to the next of the entries `avail`: it popped one
    /// of the smallest rank and asks about it; or, there being none, it
    /// ended the search.
    pub open spec fn moved_on(&self, avail: Set<Open>, action: Action) -> bool {
        match action {
            Action::Lookup(_) => self.phase() == Phase::Checking && self.popped_from(avail),
            Action::Finish(outcome) => outcome != Outcome::Aborted && forall|x: Open|
                !avail.contains(x),
            _ => false,
        }
    }

    /// The successor that is being recorded, as the entry that it becomes.
    pub open spec fn recorded_open(&self) -> Open {
        (
            self.successor(),
            (self.popped_length() + 1) as u8,
            self.popped_program().push(self.instructions()[self.cursor() - 1]),
        )
    }

    /// What became of the entries `avail`: where the driver now asks about
    /// a successor they are the open entries still; else the driver went on
    /// to the next of them.
    pub open spec fn went(&self, avail: Set<Open>, action: Action) -> bool {
        if self.phase() == Phase::Probing {
            forall|x: Open| #[trigger] self.open_view().contains(x) <==> avail.contains(x)
        } else {
            self.moved_on(avail, action)
        }
    }

    /// No entry in the queue has this trace node.
    pub closed spec fn apart(&self, node: Option<usize>) -> bool {
        forall|id: usize| #[trigger]
            queue_entries(self.queue).contains_key(id) && self.entries@[id as int].node is Some
                ==> self.entries@[id as int].node != node
    }

    /// The trace nodes of the entries in the queue.
    pub closed spec fn open_nodes(&self) -> Set<usize> {
        Set::new(
            |n: usize|
                exists|id: usize| #[trigger]
                    queue_entries(self.queue).contains_key(id) && self.entries@[id as int].node
                        == Some(n),
        )
    }

    /// The trace holds the handles of the entries in the queue and the
    /// handle `extra`, and no others: a handle is given back when its entry
    /// is done with.
    pub closed spec fn holds_only(&self, extra: Option<usize>) -> bool {
        self.trace.handles() == (match extra {
            Some(n) => self.open_nodes().insert(n),
            None => self.open_nodes(),
        })
    }

    /// The popped entry is in order, and no entry in the queue has its trace
    /// node.
    pub closed spec fn current_ok(&self) -> bool {
        &&& entry_ok(self.cfg, self.catalog@, self.origin@, self.trace, self.current)
        &&& self.apart(self.current.node)
    }

    /// The successor is what the catalog entry before the cursor makes of
    /// the popped entry, which is shorter than the longest program allowed.
    pub closed spec fn candidate_ok(&self) -> bool {
        &&& self.current_ok()
        &&& self.current.length < self.cfg.max_len
        &&& 1 <= self.next_cmd <= self.catalog.len()
        &&& uniform(self.cfg, rows(self.candidate))
        &&& is_listing_of(
            rows(self.candidate),
            image(self.cfg, self.catalog@[self.next_cmd - 1], rows(self.current.state)),
        )
    }

    /// No entry is open.
    pub closed spec fn nothing_open(&self) -> bool {
        forall|id: usize| !queue_entries(self.queue).contains_key(id)
    }

    /// The driver is in order: its parts fit each other and the phase it
    /// stands in, and until the search is over the trace holds the handles of
    /// the open entries and of the entry that is worked on, and no others.
    pub closed spec fn wf(&self) -> bool {
        &&& self.core_ok()
        &&& match self.phase {
            Phase::Idle => rows(self.seed) == self.origin@ && self.visited == 0
                && self.nothing_open() && self.holds_only(None),
            Phase::Seeding => rows(self.seed) == self.origin@ && self.visited == 0
                && self.nothing_open() && self.holds_only(None),
            Phase::Checking => self.current_ok() && self.holds_only(self.current.node),
            Phase::Emitting => self.solutions > 0 && self.current_ok() && self.holds_only(
                self.current.node,
            ),
            Phase::Probing => self.candidate_ok() && self.holds_only(self.current.node),
            Phase::Recording => self.candidate_ok() && self.holds_only(self.current.node),
            Phase::Done => {
                &&& self.outcome == Outcome::SolutionFound ==> self.solutions > 0
                &&& self.outcome == Outcome::Exhausted ==> self.solutions == 0
            },
        }
    }

    /// Sets a search up: checks the sizes, the catalog and the rows of the
    /// initial joint state against the machine, once, and lists the rows in
    /// increasing order. A table of lower bounds is kept where the settings
    /// ask for the hard cutoff, and dropped where they do not.
    pub fn new(
        cfg: Config,
        options: Options,
        catalog: Vec<Command>,
        initial: &State,
        table: Option<MemoryStore>,
    ) -> (res: Result<Driver, ConfigError>)
        ensures
            res.is_ok() <==> (sizes_ok(cfg, options) && catalog_ok(cfg, catalog@) && valid_rows(
                cfg,
                rows(*initial),
            )),
            match res {
                Ok(driver) => {
                    &&& driver.wf()
                    &&& driver.phase() == Phase::Idle
                    &&& driver.config() == cfg
                    &&& driver.settings() == options
                    &&& driver.instructions() == catalog@
                    &&& is_listing_of(driver.origin(), rows(*initial))
                    &&& valid_rows(cfg, driver.origin())
                    &&& driver.bounds() == (match table {
                        Some(t) if options.cutoff => Some(t@),
                        _ => None,
                    })
                    &&& driver.visited_count() == 0
                    &&& driver.duplicate_count() == 0
                    &&& driver.cut_count() == 0
                    &&& driver.solution_count() == 0
                    &&& driver.known_map() == Map::<Seq<u8>, u8>::empty()
                    &&& driver.exact()
                },
                Err(ConfigError::BadSizes) => !sizes_ok(cfg, options),
                Err(ConfigError::BadCommand(i)) => {
                    &&& sizes_ok(cfg, options)
                    &&& i < catalog.len()
                    &&& !command_ok(cfg, catalog@[i as int])
                },
                Err(ConfigError::BadRow(i)) => {
                    &&& sizes_ok(cfg, options)
                    &&& catalog_ok(cfg, catalog@)
                    &&& i < initial.len()
                    &&& !valid_row(cfg, rows(*initial)[i as int])
                },
            },
    {
        if !cfg.is_wf() {
            return Err(ConfigError::BadSizes);
        }
        if options.approximate && cfg.regs() > 255 {
            return Err(ConfigError::BadSizes);
        }
        match check_catalog(&cfg, &catalog) {
            Err(e) => {
                return Err(e);
            },
            Ok(_) => {},
        }
        match check_rows(&cfg, initial) {
            Err(e) => {
                return Err(e);
            },
            Ok(_) => {},
        }
        proof {
            assert forall|i: int| 0 <= i < rows(*initial).len() implies (#[trigger] rows(
                *initial,
            )[i]).len() == cfg.width_spec() by {
                assert(valid_row(cfg, rows(*initial)[i]));
            }
        }
        let seed = normalize(initial);
        proof {
            lemma_listing_uniform(cfg, rows(seed), rows(*initial));
            crate::optimal::lemma_valid_of_members(cfg, rows(seed), rows(*initial));
        }
        let table = if options.cutoff {
            table
        } else {
            None
        };
        let driver = Driver {
            cfg,
            options,
            catalog,
            table,
            origin: Ghost(rows(seed)),
            known: Ghost(Map::empty()),
            seed,
            trace: Trace::new(),
            entries: Vec::new(),
            queue: queue_new(),
            phase: Phase::Idle,
            current: OpenEntry { state: Vec::new(), node: None, length: 0 },
            next_cmd: 0,
            candidate: Vec::new(),
            outcome: Outcome::Exhausted,
            visited: 0,
            duplicate: 0,
            cut: 0,
            solutions: 0,
        };
        proof {
            assert(driver.open_nodes() =~= Set::<usize>::empty());
        }
        Ok(driver)
    }

    /// What the search is set up with.
    pub open spec fn frame(&self) -> Frame {
        Frame {
            cfg: self.config(),
            catalog: self.instructions(),
            origin: self.origin(),
            bounds: self.bounds(),
        }
    }

    /// What the visited store holds, as far as the driver has asked for it
    /// to be recorded and was told that it was.
    pub closed spec fn known_map(&self) -> Map<Seq<u8>, u8> {
        self.known@
    }

    /// What the visited store holds once the event is taken: a length that
    /// was recorded is in it.
    pub open spec fn known_after(&self, event: Event) -> Map<Seq<u8>, u8> {
        if event == Event::Stored && (self.phase() == Phase::Seeding || self.phase()
            == Phase::Recording) {
            self.known_map().insert(concat_rows(self.pending()), self.pending_length() as u8)
        } else {
            self.known_map()
        }
    }

    /// The event tells the truth: a key that was looked up has the length
    /// that was last recorded for it, or none.
    pub open spec fn faithful(&self, event: Event) -> bool {
        match event {
            Event::Looked(found) => (self.phase() == Phase::Checking || self.phase()
                == Phase::Probing) ==> found == lookup(
                self.known_map(),
                concat_rows(self.pending()),
            ),
            _ => true,
        }
    }

    /// The key and the length of every entry in the queue.
    pub closed spec fn open_pairs(&self) -> Set<(Seq<u8>, int)> {
        Set::new(
            |p: (Seq<u8>, int)|
                exists|id: usize| #[trigger]
                    queue_entries(self.queue).contains_key(id) && concat_rows(
                        rows(self.entries@[id as int].state),
                    ) == p.0 && self.entries@[id as int].length == p.1,
        )
    }

    /// The key and the length of the popped entry.
    pub closed spec fn current_pair(&self) -> (Seq<u8>, int) {
        (concat_rows(rows(self.current.state)), self.current.length as int)
    }

    /// The key and the length of every entry in the queue and of the popped
    /// entry.
    pub closed spec fn all_pairs(&self) -> Set<(Seq<u8>, int)> {
        self.open_pairs().insert(self.current_pair())
    }

    /// Where entries are ranked by length alone, the priority of each entry
    /// in the queue is what its length makes it.
    pub closed spec fn linked(&self) -> bool {
        self.options.evaluation == Evaluation::Dijkstra ==> forall|id: usize| #[trigger]
            queue_entries(self.queue).contains_key(id) ==> queue_entries(self.queue)[id]
                == u64::MAX - self.entries@[id as int].length
    }

    /// Nothing is recorded and nothing is open.
    pub closed spec fn unseeded(&self) -> bool {
        &&& self.known@ == Map::<Seq<u8>, u8>::empty()
        &&& forall|id: usize| !queue_entries(self.queue).contains_key(id)
    }

    /// The bookkeeping is in order while no entry is worked on.
    pub closed spec fn idle_ok(&self) -> bool {
        ||| self.solutions > 0
        ||| {
            &&& settled(self.frame(), self.known@, self.open_pairs())
            &&& bounded(self.known@, self.open_pairs())
            &&& self.linked()
        }
    }

    /// The bookkeeping is in order while the key of the popped entry is
    /// looked up.
    pub closed spec fn checking_ok(&self) -> bool {
        &&& settled(self.frame(), self.known@, self.all_pairs())
        &&& bounded(self.known@, self.all_pairs())
        &&& self.linked()
        &&& self.options.evaluation == Evaluation::Dijkstra ==> forall|p: (Seq<u8>, int)| #[trigger]
            self.open_pairs().contains(p) ==> p.1 >= self.current.length
    }

    /// The bookkeeping is in order while the popped entry is expanded, the
    /// catalog entries before `done` being dealt with.
    pub closed spec fn expanding(&self, done: int) -> bool {
        ||| self.solutions > 0
        ||| {
            &&& settled(self.frame(), self.known@, self.all_pairs())
            &&& bounded(self.known@, self.all_pairs())
            &&& self.linked()
            &&& lookup(self.known@, self.current_pair().0) == Some(self.current.length)
            &&& !state_goal(self.cfg, rows(self.current.state))
            &&& forall|k: int|
                0 <= k < done ==> #[trigger] clause(
                    self.frame(),
                    self.known@,
                    rows(self.current.state),
                    self.current.length as int,
                    k,
                )
        }
    }

    /// The bookkeeping of the driver is in order: every key that the store
    /// holds is accounted for. It stays so as long as the events tell the
    /// truth.
    pub closed spec fn exact(&self) -> bool {
        ||| self.solutions > 0
        ||| match self.phase {
            Phase::Idle => self.unseeded(),
            Phase::Seeding => self.unseeded(),
            Phase::Checking => self.checking_ok(),
            Phase::Emitting => false,
            Phase::Probing => self.expanding(self.next_cmd - 1),
            Phase::Recording => self.expanding(self.next_cmd - 1) && improves(
                lookup(self.known@, concat_rows(rows(self.candidate))),
                (self.current.length + 1) as u8,
            ),
            Phase::Done => true,
        }
    }

    /// What a step does to the bookkeeping: the store is taken to hold what
    /// was recorded; the bookkeeping stays in order if the event tells the
    /// truth; and then, under an admissible set-up, a search that runs out
    /// has overlooked no program, and the first program that a search by
    /// length hands out is a shortest one.
    pub open spec fn accounts(&self, before: &Driver, event: Event, action: Action) -> bool {
        &&& self.known_map() == before.known_after(event)
        &&& before.exact() && before.faithful(event) ==> self.exact()
        &&& before.exact() && before.faithful(event) && admissible(before.frame()) ==> {
            &&& before.phase() != Phase::Done && action == Action::Finish(Outcome::Exhausted)
                ==> unsolvable(before.frame())
            &&& before.settings().evaluation == Evaluation::Dijkstra && before.solution_count() == 0
                && action is Emit ==> shortest(before.frame(), action->Emit_0@.len() as int)
        }
    }

    /// The event is the answer to what the driver asked for last.
    pub open spec fn expects(&self, event: Event) -> bool {
        match self.phase() {
            Phase::Idle => event == Event::Start,
            Phase::Seeding => event == Event::Stored,
            Phase::Checking => event is Looked,
            Phase::Emitting => event == Event::Emitted,
            Phase::Probing => event is Looked,
            Phase::Recording => event == Event::Stored,
            Phase::Done => true,
        }
    }

    /// What every step keeps, and what each action promises: the driver
    /// stays in order, its set-up stays as it is, a key that is asked about
    /// is the canonical key of the rows in question, a program that is
    /// handed out sorts every row of the initial joint state, and unless the
    /// search is over the driver has come nearer to its end.
    pub open spec fn answers(&self, before: &Driver, action: Action) -> bool {
        &&& self.keeps(before, action)
        &&& (action is Finish || self.nearer(before))
    }

    /// The popped entry is what the search may hold: its joint state is
    /// listed in increasing order, and it is what its program, made of
    /// catalog instructions and no longer than allowed, makes of the initial
    /// joint state.
    pub open spec fn popped_fits(&self) -> bool {
        &&& uniform(self.config(), self.popped())
        &&& strictly_sorted(self.popped())
        &&& self.popped_length() == self.popped_program().len()
        &&& self.popped_length() <= self.config().max_len
        &&& from_catalog(self.instructions(), self.popped_program())
        &&& same_members(
            self.popped(),
            replay(self.config(), self.popped_program(), self.origin()),
        )
    }

    /// What every step keeps, and what each action promises, but for the
    /// measure of progress.
    pub open spec fn keeps(&self, before: &Driver, action: Action) -> bool {
        &&& self.wf()
        &&& (self.phase() == Phase::Checking || self.phase() == Phase::Probing || self.phase()
            == Phase::Recording) ==> self.popped_fits()
        &&& self.config() == before.config()
        &&& self.settings() == before.settings()
        &&& self.instructions() == before.instructions()
        &&& self.origin() == before.origin()
        &&& self.bounds() == before.bounds()
        &&& match action {
            Action::Lookup(key) => {
                &&& self.phase() == Phase::Checking || self.phase() == Phase::Probing
                &&& key@ == state_key(self.config(), self.settings().approximate, self.pending())
                &&& strictly_sorted(self.pending())
                &&& self.solution_count() == before.solution_count()
            },
            Action::Store(key, length) => {
                &&& self.phase() == Phase::Seeding || self.phase() == Phase::Recording
                &&& key@ == state_key(self.config(), self.settings().approximate, self.pending())
                &&& strictly_sorted(self.pending())
                &&& length == self.pending_length()
                &&& self.solution_count() == before.solution_count()
            },
            Action::Emit(program) => {
                &&& self.phase() == Phase::Emitting
                &&& solves(self.config(), program@, self.origin())
                &&& program@.len() <= self.config().max_len
                &&& from_catalog(self.instructions(), program@)
                &&& self.solution_count() == bumped(before.solution_count())
            },
            Action::Finish(outcome) => {
                &&& self.phase() == Phase::Done
                &&& outcome == self.outcome()
                &&& self.solution_count() == before.solution_count()
                &&& outcome == Outcome::SolutionFound ==> self.solution_count() > 0
                &&& outcome == Outcome::Exhausted ==> self.solution_count() == 0
            },
        }
    }

    /// The successor that catalog entry `k` makes of the popped entry is
    /// kept: it is viable and, where the driver has a table of lower bounds,
    /// within the budget.
    pub open spec fn passes(&self, k: int) -> bool {
        let succ = image(self.config(), self.instructions()[k], self.popped());
        &&& state_viable(self.config(), succ)
        &&& match self.bounds() {
            Some(table) => !state_over_budget(
                table,
                succ,
                (self.popped_length() + 1) as u8,
                self.config().max_len,
            ),
            None => true,
        }
    }

    /// What going through the catalog from entry `from` on has come to. Where
    /// the driver now asks about a successor, it is the first one from there
    /// on that is kept: the successors of the entries before it were cut and
    /// counted, and the popped entry is the same as before. Where it does
    /// not, none was kept: all were cut and counted.
    pub open spec fn scanned(&self, before: &Driver, from: int) -> bool {
        if self.phase() == Phase::Probing {
            &&& self.popped() == before.popped()
            &&& self.popped_length() == before.popped_length()
            &&& self.popped_program() == before.popped_program()
            &&& from < self.cursor() <= self.instructions().len()
            &&& self.passes(self.cursor() - 1)
            &&& forall|k: int| from <= k < self.cursor() - 1 ==> !before.passes(k)
            &&& self.successor() == listing(
                image(self.config(), self.instructions()[self.cursor() - 1], self.popped()),
            )
            &&& self.cut_count() == bumped_by(before.cut_count(), self.cursor() - 1 - from)
            &&& self.visited_count() == before.visited_count()
        } else {
            &&& forall|k: int| from <= k < before.instructions().len() ==> !before.passes(k)
            &&& self.cut_count() == bumped_by(
                before.cut_count(),
                before.instructions().len() - from,
            )
        }
    }

    /// Ends the search.
    fn finish(&mut self, outcome: Outcome) -> (action: Action)
        requires
            old(self).core_ok(),
            outcome == Outcome::SolutionFound ==> old(self).solutions > 0,
            outcome == Outcome::Exhausted ==> old(self).solutions == 0,
        ensures
            final(self).answers(old(self), action),
            final(self).open_view() == old(self).open_view(),
            action == Action::Finish(outcome),
            final(self).visited_count() == old(self).visited_count(),
            final(self).duplicate_count() == old(self).duplicate_count(),
            final(self).cut_count() == old(self).cut_count(),
            final(self).known_map() == old(self).known_map(),
            final(self).exact(),
    {
        self.phase = Phase::Done;
        self.outcome = outcome;
        proof {
            self.lemma_same_open(old(self));
        }
        Action::Finish(outcome)
    }

    /// Two drivers with the same entries, queue and trace have the same open
    /// entries.
    proof fn lemma_same_open(&self, other: &Driver)
        requires
            self.entries == other.entries,
            self.queue == other.queue,
            self.trace == other.trace,
        ensures
            self.open_view() == other.open_view(),
    {
        assert forall|id: usize| self.as_open(id) == other.as_open(id) by {}
        assert(self.open_view() =~= other.open_view());
    }

    /// Two drivers with the same entries and queue have the same trace nodes
    /// in the queue.
    proof fn lemma_same_nodes(&self, other: &Driver)
        requires
            self.entries == other.entries,
            self.queue == other.queue,
        ensures
            self.open_nodes() == other.open_nodes(),
    {
        assert(self.open_nodes() =~= other.open_nodes());
    }

    /// Gives the trace node of the popped entry back: the entry is done
    /// with. The trace no longer holds the handle of that node, it holds no
    /// more nodes than before, and every handle stands for the program it
    /// stood for. Nothing else changes.
    fn retire(&mut self)
        requires
            old(self).core_ok(),
            old(self).current_ok(),
        ensures
            final(self).core_ok(),
            final(self).trace.handles() == (match old(self).current.node {
                Some(node) => old(self).trace.handles().remove(node),
                None => old(self).trace.handles(),
            }),
            final(self).trace.population() <= old(self).trace.population(),
            forall|other: Option<usize>| #[trigger]
                final(self).trace.program(other) == old(self).trace.program(other),
            old(self).holds_only(old(self).current.node) ==> final(self).holds_only(None),
            final(self).cfg == old(self).cfg,
            final(self).options == old(self).options,
            final(self).catalog == old(self).catalog,
            final(self).table == old(self).table,
            final(self).origin == old(self).origin,
            final(self).known == old(self).known,
            final(self).seed == old(self).seed,
            final(self).entries == old(self).entries,
            final(self).queue == old(self).queue,
            final(self).phase == old(self).phase,
            final(self).current == old(self).current,
            final(self).next_cmd == old(self).next_cmd,
            final(self).candidate == old(self).candidate,
            final(self).outcome == old(self).outcome,
            final(self).visited == old(self).visited,
            final(self).duplicate == old(self).duplicate,
            final(self).cut == old(self).cut,
            final(self).solutions == old(self).solutions,
            final(self).popped_program() == old(self).popped_program(),
            final(self).open_view() == old(self).open_view(),
    {
        match self.current.node {
            Some(node) => {
                let ghost before = self.trace;
                self.trace.release(node);
                proof {
                    assert forall|id: usize| #[trigger]
                        queue_entries(self.queue).contains_key(id) implies id < self.entries.len()
                        && entry_ok(
                        self.cfg,
                        self.catalog@,
                        self.origin@,
                        self.trace,
                        self.entries@[id as int],
                    ) by {
                        let e = self.entries@[id as int];
                        assert(entry_ok(self.cfg, self.catalog@, self.origin@, before, e));
                        assert(self.trace.program(e.node) == before.program(e.node));
                        lemma_entry_stable(
                            self.cfg,
                            self.catalog@,
                            self.origin@,
                            before,
                            self.trace,
                            e,
                        );
                    }
                    assert(self.trace.program(self.current.node) == before.program(
                        self.current.node,
                    ));
                    assert forall|id: usize| self.as_open(id) == old(self).as_open(id) by {
                        assert(self.trace.program(self.entries@[id as int].node) == before.program(
                            self.entries@[id as int].node,
                        ));
                    }
                    assert(self.open_view() =~= old(self).open_view());
                    if old(self).holds_only(old(self).current.node) {
                        assert(!self.open_nodes().contains(node)) by {
                            if self.open_nodes().contains(node) {
                                let id = choose|id: usize| #[trigger]
                                    queue_entries(self.queue).contains_key(id)
                                        && self.entries@[id as int].node == Some(node);
                                assert(old(self).apart(old(self).current.node));
                            }
                        }
                        assert(self.open_nodes().insert(node).remove(node) =~= self.open_nodes());
                    }
                }
            },
            None => {},
        }
    }

    /// Pops the next open entry and asks for its key to be looked up; ends
    /// the search where the open set is empty.
    fn advance(&mut self) -> (action: Action)
        requires
            old(self).core_ok(),
            old(self).holds_only(None),
        ensures
            final(self).keeps(old(self), action),
            final(self).duplicate_count() == old(self).duplicate_count(),
            final(self).cut_count() == old(self).cut_count(),
            match action {
                Action::Lookup(_) => {
                    &&& final(self).phase() == Phase::Checking
                    &&& final(self).visited_count() == bumped(old(self).visited_count())
                    &&& final(self).work_left() == old(self).open_total()
                },
                Action::Finish(outcome) => {
                    &&& final(self).visited_count() == old(self).visited_count()
                    &&& outcome != Outcome::Aborted
                },
                _ => false,
            },
            final(self).known_map() == old(self).known_map(),
            old(self).idle_ok() ==> final(self).exact(),
            old(self).idle_ok() && admissible(old(self).frame()) && action == Action::Finish(
                Outcome::Exhausted,
            ) ==> unsolvable(old(self).frame()),
            action is Lookup ==> exists|id: usize| #[trigger]
                queue_entries(old(self).queue).contains_key(id) && final(self).current == old(
                    self,
                ).entries@[id as int],
            action is Finish ==> old(self).nothing_open(),
            final(self).moved_on(old(self).open_view(), action),
    {
        let top = queue_pop(&mut self.queue);
        match top {
            None => {
                if self.solutions > 0 {
                    self.finish(Outcome::SolutionFound)
                } else {
                    proof {
                        if old(self).idle_ok() && admissible(old(self).frame()) {
                            let f = old(self).frame();
                            let open = old(self).open_pairs();
                            assert forall|q: Seq<Command>|
                                from_catalog(f.catalog, q) && q.len() <= f.cfg.max_len implies !#[trigger] solves(
                                f.cfg,
                                q,
                                f.origin,
                            ) by {
                                if solves(f.cfg, q, f.origin) {
                                    lemma_some_open_is_short(f, old(self).known@, open, q);
                                    let p = choose|p: (Seq<u8>, int)| #[trigger]
                                        open.contains(p) && p.1 <= q.len();
                                    assert(open.contains(p));
                                }
                            }
                        }
                    }
                    self.finish(Outcome::Exhausted)
                }
            },
            Some((id, _priority)) => {
                if self.visited < u64::MAX {
                    self.visited = self.visited + 1;
                }
                let mut entry = OpenEntry { state: Vec::new(), node: None, length: 0 };
                self.entries.set_and_swap(id, &mut entry);
                let key = key_for(&self.cfg, self.options.approximate, &entry.state);
                self.current = entry;
                self.phase = Phase::Checking;
                proof {
                    // the weight of the popped entry goes from the queue to
                    // the entry that is worked on
                    lemma_total_without(
                        queue_entries(old(self).queue),
                        old(self).entries@,
                        queue_entries(self.queue),
                        self.entries@,
                        self.catalog@.len(),
                        self.cfg.max_len as nat,
                        self.entries@.len(),
                        id,
                    );
                    assert(self.work_left() == old(self).open_total());
                }
                proof {
                    // the handle of the popped entry is held for the entry
                    // that is worked on now
                    let nodes = match self.current.node {
                        Some(n) => self.open_nodes().insert(n),
                        None => self.open_nodes(),
                    };
                    assert(self.current == old(self).entries@[id as int]);
                    assert forall|n: usize| old(self).open_nodes().contains(n) <==> nodes.contains(
                        n,
                    ) by {
                        if old(self).open_nodes().contains(n) {
                            let w = choose|w: usize| #[trigger]
                                queue_entries(old(self).queue).contains_key(w) && old(
                                    self,
                                ).entries@[w as int].node == Some(n);
                            if w != id {
                                assert(queue_entries(self.queue).contains_key(w));
                                assert(self.entries@[w as int] == old(self).entries@[w as int]);
                            }
                        }
                        if self.open_nodes().contains(n) {
                            let w = choose|w: usize| #[trigger]
                                queue_entries(self.queue).contains_key(w)
                                    && self.entries@[w as int].node == Some(n);
                            assert(queue_entries(old(self).queue).contains_key(w));
                            assert(self.entries@[w as int] == old(self).entries@[w as int]);
                        }
                        if self.current.node == Some(n) {
                            assert(queue_entries(old(self).queue).contains_key(id));
                        }
                    }
                    assert(old(self).open_nodes() =~= nodes);
                    assert(self.holds_only(self.current.node));
                }
                proof {
                    let avail = old(self).open_view();
                    let t = self.popped_open();
                    assert(old(self).as_open(id) == t);
                    assert(avail.contains(t));
                    assert forall|x: Open| #[trigger] avail.contains(x) implies self.rank(x)
                        >= self.rank(t) by {
                        let w = choose|w: usize| #[trigger]
                            queue_entries(old(self).queue).contains_key(w) && old(self).as_open(w)
                                == x;
                        assert(queue_entries(old(self).queue)[w] <= queue_entries(
                            old(self).queue,
                        )[id]);
                    }
                    assert forall|x: Open| #[trigger] avail.contains(x) && x != t implies self.open_view().contains(
                        x,
                    ) by {
                        let w = choose|w: usize| #[trigger]
                            queue_entries(old(self).queue).contains_key(w) && old(self).as_open(w)
                                == x;
                        assert(w != id);
                        assert(queue_entries(self.queue).contains_key(w));
                        assert(self.entries@[w as int] == old(self).entries@[w as int]);
                        assert(self.as_open(w) == x);
                    }
                    assert forall|x: Open| #[trigger] self.open_view().contains(x) implies avail.contains(
                        x,
                    ) by {
                        let w = choose|w: usize| #[trigger]
                            queue_entries(self.queue).contains_key(w) && self.as_open(w) == x;
                        assert(queue_entries(old(self).queue).contains_key(w));
                        assert(self.entries@[w as int] == old(self).entries@[w as int]);
                        assert(old(self).as_open(w) == x);
                    }
                }
                proof {
                    if old(self).idle_ok() && self.solutions == 0 {
                        let f = self.frame();
                        let before = old(self).open_pairs();
                        let after = self.all_pairs();
                        assert forall|p: (Seq<u8>, int)| #[trigger] before.contains(p) implies after.contains(
                            p,
                        ) by {
                            let w = choose|w: usize| #[trigger]
                                queue_entries(old(self).queue).contains_key(w) && concat_rows(
                                    rows(old(self).entries@[w as int].state),
                                ) == p.0 && old(self).entries@[w as int].length == p.1;
                            if w == id {
                                assert(p == self.current_pair());
                            } else {
                                assert(queue_entries(self.queue).contains_key(w));
                                assert(self.entries@[w as int] == old(self).entries@[w as int]);
                                assert(self.open_pairs().contains(p));
                            }
                        }
                        assert forall|p: (Seq<u8>, int)| #[trigger] after.contains(p) implies before.contains(
                            p,
                        ) by {
                            if p == self.current_pair() {
                                assert(queue_entries(old(self).queue).contains_key(id));
                            } else {
                                assert(self.open_pairs().contains(p));
                                let w = choose|w: usize| #[trigger]
                                    queue_entries(self.queue).contains_key(w) && concat_rows(
                                        rows(self.entries@[w as int].state),
                                    ) == p.0 && self.entries@[w as int].length == p.1;
                                assert(queue_entries(old(self).queue).contains_key(w));
                                assert(self.entries@[w as int] == old(self).entries@[w as int]);
                            }
                        }
                        lemma_settled_grow(f, self.known@, before, after);
                        assert(self.linked()) by {
                            if self.options.evaluation == Evaluation::Dijkstra {
                                assert forall|w: usize| #[trigger]
                                    queue_entries(self.queue).contains_key(w) implies queue_entries(
                                    self.queue,
                                )[w] == u64::MAX - self.entries@[w as int].length by {
                                    assert(queue_entries(old(self).queue).contains_key(w));
                                    assert(self.entries@[w as int] == old(self).entries@[w as int]);
                                }
                            }
                        }
                        if self.options.evaluation == Evaluation::Dijkstra {
                            assert forall|p: (Seq<u8>, int)| #[trigger]
                                self.open_pairs().contains(p) implies p.1 >= self.current.length by {
                                let w = choose|w: usize| #[trigger]
                                    queue_entries(self.queue).contains_key(w) && concat_rows(
                                        rows(self.entries@[w as int].state),
                                    ) == p.0 && self.entries@[w as int].length == p.1;
                                assert(queue_entries(old(self).queue).contains_key(w));
                                assert(self.entries@[w as int] == old(self).entries@[w as int]);
                                assert(queue_entries(old(self).queue).contains_key(id));
                            }
                        }
                    }
                }
                Action::Lookup(key)
            },
        }
    }

    /// Goes through the catalog from the cursor on: cuts the successors that
    /// are not viable or over the budget, and asks for the key of the first
    /// one that is kept to be looked up. Where none is left, pops the next
    /// entry.
    fn scan(&mut self) -> (action: Action)
        requires
            old(self).core_ok(),
            old(self).current_ok(),
            old(self).holds_only(old(self).current.node),
            old(self).current.length < old(self).cfg.max_len,
            old(self).next_cmd <= old(self).catalog.len(),
        ensures
            final(self).keeps(old(self), action),
            final(self).duplicate_count() == old(self).duplicate_count(),
            match action {
                Action::Lookup(_) => {
                    ||| {
                        &&& final(self).phase() == Phase::Probing
                        &&& final(self).visited_count() == old(self).visited_count()
                        &&& final(self).cursor() > old(self).cursor()
                        &&& final(self).popped() == old(self).popped()
                        &&& final(self).popped_length() == old(self).popped_length()
                        &&& final(self).passes(final(self).cursor() - 1)
                        &&& forall|k: int|
                            old(self).cursor() <= k < final(self).cursor() - 1 ==> !old(
                                self,
                            ).passes(k)
                        &&& final(self).cut_count() == bumped_by(
                            old(self).cut_count(),
                            final(self).cursor() - 1 - old(self).cursor(),
                        )
                        &&& final(self).open_total() == old(self).open_total()
                    }
                    ||| {
                        &&& final(self).phase() == Phase::Checking
                        &&& final(self).visited_count() == bumped(old(self).visited_count())
                        &&& final(self).work_left() == old(self).open_total()
                        &&& forall|k: int|
                            old(self).cursor() <= k < old(self).instructions().len() ==> !old(
                                self,
                            ).passes(k)
                    }
                },
                Action::Finish(outcome) => {
                    &&& final(self).visited_count() == old(self).visited_count()
                    &&& outcome != Outcome::Aborted
                    &&& forall|k: int|
                        old(self).cursor() <= k < old(self).instructions().len() ==> !old(
                            self,
                        ).passes(k)
                },
                _ => false,
            },
            final(self).known_map() == old(self).known_map(),
            old(self).expanding(old(self).cursor() as int) ==> final(self).exact(),
            old(self).expanding(old(self).cursor() as int) && admissible(old(self).frame())
                && action == Action::Finish(Outcome::Exhausted) ==> unsolvable(old(self).frame()),
            final(self).scanned(old(self), old(self).cursor() as int),
            final(self).went(old(self).open_view(), action),
    {
        let ghost start = self.next_cmd;
        while self.next_cmd < self.catalog.len()
            invariant
                self.core_ok(),
                self.current_ok(),
                self.current.length < self.cfg.max_len,
                start <= self.next_cmd <= self.catalog.len(),
                start == old(self).next_cmd,
                self.cfg == old(self).cfg,
                self.options == old(self).options,
                self.catalog == old(self).catalog,
                self.table == old(self).table,
                self.origin == old(self).origin,
                self.current == old(self).current,
                self.trace == old(self).trace,
                self.entries == old(self).entries,
                self.queue == old(self).queue,
                self.holds_only(self.current.node),
                self.known == old(self).known,
                old(self).expanding(start as int) ==> self.expanding(self.next_cmd as int),
                self.visited == old(self).visited,
                self.duplicate == old(self).duplicate,
                self.solutions == old(self).solutions,
                self.cut == bumped_by(old(self).cut, self.next_cmd - start),
                forall|k: int| start <= k < self.next_cmd ==> !old(self).passes(k),
            decreases self.catalog.len() - self.next_cmd,
        {
            let k: usize = self.next_cmd;
            let cmd: Command = self.catalog[k];
            proof {
                lemma_ok_in_bounds(self.cfg, cmd);
            }
            let cand = apply_all(&self.cfg, &cmd, &self.current.state);
            let length: u8 = self.current.length + 1;
            let ghost succ = image(self.cfg, cmd, rows(self.current.state));
            proof {
                crate::viability::lemma_viable_of_members(self.cfg, rows(cand), succ);
                lemma_over_budget_of_members(rows(cand), succ, self.bounds(), length, self.cfg.max_len);
            }
            let keep: bool = if !viable(&self.cfg, &cand) {
                false
            } else {
                match &self.table {
                    Some(table) => !over_budget(table, &cand, length, self.cfg.max_len),
                    None => true,
                }
            };
            assert(keep == old(self).passes(k as int));
            proof {
                if old(self).expanding(start as int) && self.solutions == 0 && !keep {
                    assert(!crate::optimal::keeps(
                        self.frame(),
                        rows(self.current.state),
                        self.current.length as int,
                        k as int,
                    ));
                    assert(clause(
                        self.frame(),
                        self.known@,
                        rows(self.current.state),
                        self.current.length as int,
                        k as int,
                    ));
                }
            }
            self.next_cmd = k + 1;
            if keep {
                let key = key_for(&self.cfg, self.options.approximate, &cand);
                proof {
                    lemma_listing_is(rows(cand), succ);
                }
                self.candidate = cand;
                self.phase = Phase::Probing;
                proof {
                    assert(self.open_view() =~= old(self).open_view()) by {
                        assert forall|id: usize| self.as_open(id) == old(self).as_open(id) by {}
                    }
                }
                return Action::Lookup(key);
            }
            self.cut = bump(self.cut);
        }
        proof {
            assert(self.open_view() =~= old(self).open_view()) by {
                assert forall|id: usize| self.as_open(id) == old(self).as_open(id) by {}
            }
        }
        proof {
            if old(self).expanding(start as int) && self.solutions == 0 {
                let f = self.frame();
                let s = rows(self.current.state);
                let pair = self.current_pair();
                assert(node(f, s, pair.0));
                assert(closed(f, self.known@, pair.0, pair.1));
                lemma_settled_drop(f, self.known@, self.all_pairs(), self.open_pairs(), pair);
                assert(bounded(self.known@, self.open_pairs())) by {
                    assert forall|p: (Seq<u8>, int)| #[trigger]
                        self.open_pairs().contains(p) implies recorded_within(
                        self.known@,
                        p.0,
                        p.1,
                    ) by {
                        assert(self.all_pairs().contains(p));
                    }
                }
                assert(self.idle_ok());
            }
        }
        self.retire();
        self.advance()
    }

    /// Puts an entry into the open set.
    fn open(&mut self, entry: OpenEntry)
        requires
            old(self).core_ok(),
            entry_ok(old(self).cfg, old(self).catalog@, old(self).origin@, old(self).trace, entry),
            old(self).apart(entry.node),
        ensures
            final(self).core_ok(),
            forall|node: Option<usize>|
                old(self).apart(node) && (entry.node is Some ==> entry.node != node)
                    ==> #[trigger] final(self).apart(node),
            final(self).cfg == old(self).cfg,
            final(self).options == old(self).options,
            final(self).catalog == old(self).catalog,
            final(self).table == old(self).table,
            final(self).origin == old(self).origin,
            final(self).seed == old(self).seed,
            final(self).trace == old(self).trace,
            final(self).phase == old(self).phase,
            final(self).current == old(self).current,
            final(self).next_cmd == old(self).next_cmd,
            final(self).candidate == old(self).candidate,
            final(self).outcome == old(self).outcome,
            final(self).visited == old(self).visited,
            final(self).duplicate == old(self).duplicate,
            final(self).cut == old(self).cut,
            final(self).solutions == old(self).solutions,
            final(self).known == old(self).known,
            forall|p: (Seq<u8>, int)|
                #![trigger final(self).open_pairs().contains(p)]
                final(self).open_pairs().contains(p) <==> (old(self).open_pairs().contains(p) || p
                    == (concat_rows(rows(entry.state)), entry.length as int)),
            old(self).linked() ==> final(self).linked(),
            forall|t: Open|
                #![trigger final(self).open_view().contains(t)]
                final(self).open_view().contains(t) <==> (old(self).open_view().contains(t) || t == (
                    rows(entry.state),
                    entry.length,
                    old(self).trace.program(entry.node),
                )),
            final(self).entries@ == old(self).entries@.push(entry),
            final(self).open_nodes() == (match entry.node {
                Some(n) => old(self).open_nodes().insert(n),
                None => old(self).open_nodes(),
            }),
            final(self).open_total() == old(self).open_total() + weight_at(
                old(self).catalog@.len(),
                old(self).cfg.max_len as nat,
                entry.length,
            ),
            forall|id: usize|
                #![trigger queue_entries(final(self).queue).contains_key(id)]
                queue_entries(final(self).queue).contains_key(id) <==> (queue_entries(
                    old(self).queue,
                ).contains_key(id) || id == old(self).entries.len()),
    {
        proof {
            assert(forall|i: int|
                0 <= i < rows(entry.state).len() ==> (#[trigger] rows(entry.state)[i]).len()
                    >= self.cfg.numbers);
        }
        let rank: u64 = score(&self.cfg, self.options.evaluation, &entry.state, entry.length);
        let id: usize = self.entries.len();
        let ghost pair = (concat_rows(rows(entry.state)), entry.length as int);
        let ghost triple: Open = (rows(entry.state), entry.length, self.trace.program(entry.node));
        let ghost handle = entry.node;
        let ghost heavy = weight_at(self.catalog@.len(), self.cfg.max_len as nat, entry.length);
        self.entries.push(entry);
        let _ = queue_push(&mut self.queue, id, u64::MAX - rank);
        proof {
            assert(!queue_entries(old(self).queue).contains_key(id));
            lemma_total_same(
                queue_entries(old(self).queue),
                old(self).entries@,
                queue_entries(self.queue),
                self.entries@,
                self.catalog@.len(),
                self.cfg.max_len as nat,
                id as nat,
            );
            assert(self.open_total() == old(self).open_total() + heavy);
            let nodes = match handle {
                Some(n) => old(self).open_nodes().insert(n),
                None => old(self).open_nodes(),
            };
            assert forall|n: usize| self.open_nodes().contains(n) <==> nodes.contains(n) by {
                if self.open_nodes().contains(n) {
                    let w = choose|w: usize| #[trigger]
                        queue_entries(self.queue).contains_key(w) && self.entries@[w as int].node
                            == Some(n);
                    if w != id {
                        assert(queue_entries(old(self).queue).contains_key(w));
                        assert(self.entries@[w as int] == old(self).entries@[w as int]);
                    }
                }
                if old(self).open_nodes().contains(n) {
                    let w = choose|w: usize| #[trigger]
                        queue_entries(old(self).queue).contains_key(w) && old(
                            self,
                        ).entries@[w as int].node == Some(n);
                    assert(queue_entries(self.queue).contains_key(w));
                    assert(self.entries@[w as int] == old(self).entries@[w as int]);
                }
                if handle == Some(n) {
                    assert(queue_entries(self.queue).contains_key(id));
                    assert(self.entries@[id as int].node == Some(n));
                }
            }
            assert(self.open_nodes() =~= nodes);
            assert(self.as_open(id) == triple);
            assert forall|t: Open|
                #![trigger self.open_view().contains(t)]
                self.open_view().contains(t) <==> (old(self).open_view().contains(t) || t
                    == triple) by {
                if self.open_view().contains(t) {
                    let w = choose|w: usize| #[trigger]
                        queue_entries(self.queue).contains_key(w) && self.as_open(w) == t;
                    if w != id {
                        assert(queue_entries(old(self).queue).contains_key(w));
                        assert(self.entries@[w as int] == old(self).entries@[w as int]);
                        assert(old(self).as_open(w) == t);
                    }
                }
                if old(self).open_view().contains(t) {
                    let w = choose|w: usize| #[trigger]
                        queue_entries(old(self).queue).contains_key(w) && old(self).as_open(w) == t;
                    assert(queue_entries(self.queue).contains_key(w));
                    assert(self.entries@[w as int] == old(self).entries@[w as int]);
                    assert(self.as_open(w) == t);
                }
                if t == triple {
                    assert(queue_entries(self.queue).contains_key(id));
                }
            }
            assert forall|w: usize| #[trigger] queue_entries(self.queue).contains_key(w) implies w
                < self.entries.len() && entry_ok(
                self.cfg,
                self.catalog@,
                self.origin@,
                self.trace,
                self.entries@[w as int],
            ) by {
                if w != id {
                    assert(queue_entries(old(self).queue).contains_key(w));
                    assert(self.entries@[w as int] == old(self).entries@[w as int]);
                }
            }
            assert forall|a: usize, b: usize|
                #![trigger queue_entries(self.queue).contains_key(a), queue_entries(self.queue).contains_key(b)]
                queue_entries(self.queue).contains_key(a) && queue_entries(self.queue).contains_key(
                    b,
                ) && a != b && self.entries@[a as int].node is Some implies self.entries@[a as int].node
                != self.entries@[b as int].node by {
                if a != id {
                    assert(queue_entries(old(self).queue).contains_key(a));
                    assert(self.entries@[a as int] == old(self).entries@[a as int]);
                }
                if b != id {
                    assert(queue_entries(old(self).queue).contains_key(b));
                    assert(self.entries@[b as int] == old(self).entries@[b as int]);
                }
            }
            assert forall|node: Option<usize>|
                old(self).apart(node) && (entry.node is Some ==> entry.node != node) implies #[trigger] self.apart(
                node,
            ) by {
                assert forall|w: usize| #[trigger]
                    queue_entries(self.queue).contains_key(w) && self.entries@[w as int].node is Some implies self.entries@[w as int].node
                    != node by {
                    if w != id {
                        assert(queue_entries(old(self).queue).contains_key(w));
                        assert(self.entries@[w as int] == old(self).entries@[w as int]);
                    }
                }
            }
            assert forall|p: (Seq<u8>, int)|
                #![trigger self.open_pairs().contains(p)]
                self.open_pairs().contains(p) <==> (old(self).open_pairs().contains(p) || p
                    == pair) by {
                if self.open_pairs().contains(p) {
                    let w = choose|w: usize| #[trigger]
                        queue_entries(self.queue).contains_key(w) && concat_rows(
                            rows(self.entries@[w as int].state),
                        ) == p.0 && self.entries@[w as int].length == p.1;
                    if w != id {
                        assert(queue_entries(old(self).queue).contains_key(w));
                        assert(self.entries@[w as int] == old(self).entries@[w as int]);
                    }
                }
                if old(self).open_pairs().contains(p) {
                    let w = choose|w: usize| #[trigger]
                        queue_entries(old(self).queue).contains_key(w) && concat_rows(
                            rows(old(self).entries@[w as int].state),
                        ) == p.0 && old(self).entries@[w as int].length == p.1;
                    assert(queue_entries(self.queue).contains_key(w));
                    assert(self.entries@[w as int] == old(self).entries@[w as int]);
                }
                if p == pair {
                    assert(queue_entries(self.queue).contains_key(id));
                    assert(self.entries@[id as int].length == pair.1);
                }
            }
            if old(self).linked() && self.options.evaluation == Evaluation::Dijkstra {
                assert forall|w: usize| #[trigger]
                    queue_entries(self.queue).contains_key(w) implies queue_entries(self.queue)[w]
                    == u64::MAX - self.entries@[w as int].length by {
                    if w != id {
                        assert(queue_entries(old(self).queue).contains_key(w));
                        assert(self.entries@[w as int] == old(self).entries@[w as int]);
                    }
                }
            }
        }
    }

    /// The search begins: the initial joint state is to be recorded.
    fn on_start(&mut self) -> (action: Action)
        requires
            old(self).wf(),
            old(self).phase == Phase::Idle,
        ensures
            final(self).answers(old(self), action),
            final(self).open_view() == old(self).open_view(),
            action is Store,
            final(self).phase() == Phase::Seeding,
            final(self).visited_count() == old(self).visited_count(),
            final(self).duplicate_count() == old(self).duplicate_count(),
            final(self).cut_count() == old(self).cut_count(),
            final(self).known_map() == old(self).known_map(),
            old(self).exact() ==> final(self).exact(),
    {
        let key = key_for(&self.cfg, self.options.approximate, &self.seed);
        self.phase = Phase::Seeding;
        proof {
            self.lemma_same_open(old(self));
        }
        Action::Store(key, 0)
    }

    /// The initial joint state is recorded: it becomes the first open entry
    /// and is popped at once.
    fn on_seeded(&mut self) -> (action: Action)
        requires
            old(self).wf(),
            old(self).phase == Phase::Seeding,
        ensures
            final(self).answers(old(self), action),
            final(self).moved_on(
                Set::<Open>::empty().insert((old(self).origin(), 0u8, Seq::<Command>::empty())),
                action,
            ),
            final(self).duplicate_count() == old(self).duplicate_count(),
            final(self).cut_count() == old(self).cut_count(),
            final(self).known_map() == old(self).known_map().insert(
                concat_rows(old(self).origin()),
                0,
            ),
            !(action is Emit),
            old(self).exact() ==> final(self).exact(),
            old(self).exact() && admissible(old(self).frame()) && action == Action::Finish(
                Outcome::Exhausted,
            ) ==> unsolvable(old(self).frame()),
            action is Lookup,
            final(self).popped() == old(self).origin(),
            final(self).popped_length() == 0,
            final(self).popped_program() == Seq::<Command>::empty(),
            final(self).visited_count() == 1,
    {
        let mut seed: State = Vec::new();
        std::mem::swap(&mut self.seed, &mut seed);
        let entry = OpenEntry { state: seed, node: None, length: 0 };
        let ghost key = concat_rows(self.origin@);
        proof {
            assert(self.trace.program(None) =~= Seq::<Command>::empty());
            assert(same_members(self.origin@, self.origin@));
        }
        self.known = Ghost(self.known@.insert(key, 0));
        let ghost mid = *self;
        self.open(entry);
        proof {
            assert(self.open_pairs().contains((key, 0int)));
            if old(self).exact() && self.solutions == 0 {
                assert(old(self).unseeded());
                assert(mid.linked());
                let f = self.frame();
                assert forall|p: (Seq<u8>, int)| #[trigger] self.open_pairs().contains(p) implies p
                    == (key, 0int) by {
                    if mid.open_pairs().contains(p) {
                        let w = choose|w: usize| #[trigger]
                            queue_entries(mid.queue).contains_key(w) && concat_rows(
                                rows(mid.entries@[w as int].state),
                            ) == p.0 && mid.entries@[w as int].length == p.1;
                        assert(queue_entries(old(self).queue).contains_key(w));
                    }
                }
                assert(settled(f, self.known@, self.open_pairs()));
                assert(bounded(self.known@, self.open_pairs()));
                assert(self.idle_ok());
            }
        }
        let ghost opened = *self;
        let ghost id0 = old(self).entries.len();
        proof {
            assert(queue_entries(opened.queue).contains_key(id0));
            assert forall|id: usize| #[trigger]
                queue_entries(opened.queue).contains_key(id) implies id == id0 by {
                if id != id0 {
                    assert(queue_entries(mid.queue).contains_key(id));
                    assert(queue_entries(old(self).queue).contains_key(id));
                }
            }
        }
        let action = self.advance();
        proof {
            assert(self.trace.program(None) =~= Seq::<Command>::empty());
        }
        action
    }

    /// The key of the popped entry was looked up: the entry is a solution,
    /// or stale, or too long to go on from, or it is expanded. The goal is
    /// tested first: a solution is handed out whatever the store holds for
    /// its key.
    fn on_checked(&mut self, found: Option<u8>) -> (action: Action)
        requires
            old(self).wf(),
            old(self).phase == Phase::Checking,
        ensures
            final(self).answers(old(self), action),
            if state_goal(old(self).config(), old(self).popped()) {
                final(self).open_view() == old(self).open_view()
            } else if superseded(found, old(self).popped_length()) {
                final(self).moved_on(old(self).open_view(), action)
            } else if old(self).popped_length() >= old(self).config().max_len {
                final(self).moved_on(old(self).open_view(), action)
            } else {
                final(self).went(old(self).open_view(), action)
            },
            action != Action::Finish(Outcome::Aborted),
            !(action is Store),
            superseded(found, old(self).popped_length()) && !state_goal(
                old(self).config(),
                old(self).popped(),
            ) ==> {
                &&& final(self).duplicate_count() == bumped(old(self).duplicate_count())
                &&& final(self).cut_count() == old(self).cut_count()
            },
            !superseded(found, old(self).popped_length()) || state_goal(
                old(self).config(),
                old(self).popped(),
            ) ==> final(self).duplicate_count() == old(self).duplicate_count(),
            state_goal(old(self).config(), old(self).popped()) ==> {
                &&& action is Emit
                &&& action->Emit_0@ == old(self).popped_program()
                &&& final(self).visited_count() == old(self).visited_count()
                &&& final(self).cut_count() == old(self).cut_count()
            },
            !state_goal(old(self).config(), old(self).popped()) ==> !(action is Emit),
            !superseded(found, old(self).popped_length()) && !state_goal(
                old(self).config(),
                old(self).popped(),
            ) ==> {
                if old(self).popped_length() < old(self).config().max_len {
                    final(self).scanned(old(self), 0)
                } else {
                    final(self).cut_count() == old(self).cut_count()
                }
            },
            final(self).known_map() == old(self).known_map(),
            old(self).exact() && old(self).faithful(Event::Looked(found)) ==> final(self).exact(),
            old(self).exact() && old(self).faithful(Event::Looked(found)) && admissible(
                old(self).frame(),
            ) ==> {
                &&& action == Action::Finish(Outcome::Exhausted) ==> unsolvable(old(self).frame())
                &&& old(self).settings().evaluation == Evaluation::Dijkstra && old(
                    self,
                ).solution_count() == 0 && action is Emit ==> shortest(
                    old(self).frame(),
                    action->Emit_0@.len() as int,
                )
            },
    {
        let ghost f = self.frame();
        let ghost pair = self.current_pair();
        let ghost in_order = old(self).exact() && old(self).faithful(Event::Looked(found))
            && self.solutions == 0;
        proof {
            if in_order {
                assert(self.all_pairs().contains(pair));
                assert(recorded_within(self.known@, pair.0, pair.1));
            }
        }
        proof {
            lemma_goal_of_members(
                self.cfg,
                rows(self.current.state),
                replay(self.cfg, self.trace.program(self.current.node), self.origin@),
            );
        }
        if is_goal(&self.cfg, &self.current.state) {
            let program = extract_program(&self.trace, self.current.node);
            proof {
                if in_order && admissible(f) && self.options.evaluation == Evaluation::Dijkstra {
                    assert forall|q: Seq<Command>|
                        from_catalog(f.catalog, q) && q.len() <= f.cfg.max_len && #[trigger] solves(
                            f.cfg,
                            q,
                            f.origin,
                        ) implies program@.len() <= q.len() by {
                        lemma_some_open_is_short(f, self.known@, self.all_pairs(), q);
                        let p = choose|p: (Seq<u8>, int)| #[trigger]
                            self.all_pairs().contains(p) && p.1 <= q.len();
                        if p != pair {
                            assert(self.open_pairs().contains(p));
                        }
                    }
                }
            }
            self.solutions = bump(self.solutions);
            self.phase = Phase::Emitting;
            proof {
                self.lemma_same_open(old(self));
            }
            return Action::Emit(program);
        }
        if is_stale(found, self.current.length) {
            self.duplicate = bump(self.duplicate);
            proof {
                if in_order {
                    lemma_settled_drop(f, self.known@, self.all_pairs(), self.open_pairs(), pair);
                    assert(bounded(self.known@, self.open_pairs())) by {
                        assert forall|p: (Seq<u8>, int)| #[trigger]
                            self.open_pairs().contains(p) implies recorded_within(
                            self.known@,
                            p.0,
                            p.1,
                        ) by {
                            assert(self.all_pairs().contains(p));
                        }
                    }
                    assert(self.idle_ok());
                }
            }
            proof {
                self.lemma_same_open(old(self));
            }
            self.retire();
            proof {
                lemma_weight_positive(
                    self.catalog@.len(),
                    (self.cfg.max_len - self.current.length) as nat,
                );
            }
            return self.advance();
        }
        if self.current.length >= self.cfg.max_len {
            proof {
                if in_order {
                    assert(node(f, rows(self.current.state), pair.0));
                    assert(capped(f, pair.0, pair.1));
                    lemma_settled_drop(f, self.known@, self.all_pairs(), self.open_pairs(), pair);
                    assert(bounded(self.known@, self.open_pairs())) by {
                        assert forall|p: (Seq<u8>, int)| #[trigger]
                            self.open_pairs().contains(p) implies recorded_within(
                            self.known@,
                            p.0,
                            p.1,
                        ) by {
                            assert(self.all_pairs().contains(p));
                        }
                    }
                    assert(self.idle_ok());
                }
            }
            proof {
                self.lemma_same_open(old(self));
            }
            self.retire();
            proof {
                lemma_weight_positive(
                    self.catalog@.len(),
                    (self.cfg.max_len - self.current.length) as nat,
                );
            }
            return self.advance();
        }
        self.next_cmd = 0;
        proof {
            if in_order {
                assert(self.expanding(0));
            }
            self.lemma_same_open(old(self));
        }
        let ghost mid = *self;
        let action = self.scan();
        proof {
            if self.phase() == Phase::Probing {
                lemma_busy(
                    self.catalog@.len(),
                    self.cfg.max_len as nat,
                    self.current.length,
                    1,
                    self.next_cmd as int,
                );
            } else {
                lemma_weight_positive(
                    mid.catalog@.len(),
                    (mid.cfg.max_len - mid.current.length) as nat,
                );
            }
        }
        proof {
            assert forall|k: int| mid.passes(k) == old(self).passes(k) by {}
            if self.phase() == Phase::Probing {
                assert forall|k: int| 0 <= k < self.cursor() - 1 implies !old(self).passes(k) by {
                    assert(mid.passes(k) == old(self).passes(k));
                    assert(!mid.passes(k));
                }
            } else {
                assert forall|k: int| 0 <= k < old(self).instructions().len() implies !old(
                    self,
                ).passes(k) by {
                    assert(mid.passes(k) == old(self).passes(k));
                    assert(!mid.passes(k));
                }
            }
        }
        action
    }

    /// The solution was taken: the search goes on or ends, as it is set up.
    fn on_emitted(&mut self) -> (action: Action)
        requires
            old(self).wf(),
            old(self).phase == Phase::Emitting,
        ensures
            final(self).answers(old(self), action),
            if old(self).settings().all_solutions {
                final(self).moved_on(old(self).open_view(), action)
            } else {
                final(self).open_view() == old(self).open_view()
            },
            action != Action::Finish(Outcome::Aborted),
            action is Lookup || action is Finish,
            old(self).settings().all_solutions ==> !(action is Emit),
            !old(self).settings().all_solutions ==> action == Action::Finish(Outcome::SolutionFound),
            final(self).duplicate_count() == old(self).duplicate_count(),
            final(self).cut_count() == old(self).cut_count(),
            final(self).known_map() == old(self).known_map(),
            final(self).exact(),
            action != Action::Finish(Outcome::Exhausted),
    {
        proof {
            self.lemma_same_open(old(self));
        }
        self.retire();
        if self.options.all_solutions {
            self.advance()
        } else {
            self.finish(Outcome::SolutionFound)
        }
    }

    /// The key of a successor was looked up: the successor is new or was
    /// reached by a shorter program, and is to be recorded; or it is a
    /// duplicate.
    fn on_probed(&mut self, found: Option<u8>) -> (action: Action)
        requires
            old(self).wf(),
            old(self).phase == Phase::Probing,
        ensures
            final(self).answers(old(self), action),
            if improves(found, (old(self).popped_length() + 1) as u8) {
                final(self).open_view() == old(self).open_view()
            } else {
                final(self).went(old(self).open_view(), action)
            },
            action != Action::Finish(Outcome::Aborted),
            action is Store || action is Lookup || action is Finish,
            improves(found, (old(self).popped_length() + 1) as u8) ==> {
                &&& action is Store
                &&& final(self).phase() == Phase::Recording
                &&& final(self).successor() == old(self).successor()
                &&& final(self).popped() == old(self).popped()
                &&& final(self).popped_length() == old(self).popped_length()
                &&& final(self).popped_program() == old(self).popped_program()
                &&& final(self).cursor() == old(self).cursor()
                &&& final(self).visited_count() == old(self).visited_count()
                &&& final(self).duplicate_count() == old(self).duplicate_count()
                &&& final(self).cut_count() == old(self).cut_count()
            },
            !improves(found, (old(self).popped_length() + 1) as u8) ==> {
                &&& final(self).duplicate_count() == bumped(old(self).duplicate_count())
                &&& !(action is Store)
                &&& final(self).scanned(old(self), old(self).cursor() as int)
            },
            final(self).known_map() == old(self).known_map(),
            !(action is Emit),
            old(self).exact() && old(self).faithful(Event::Looked(found)) ==> final(self).exact(),
            old(self).exact() && old(self).faithful(Event::Looked(found)) && admissible(
                old(self).frame(),
            ) && action == Action::Finish(Outcome::Exhausted) ==> unsolvable(old(self).frame()),
    {
        let length: u8 = self.current.length + 1;
        let ghost in_order = old(self).exact() && old(self).faithful(Event::Looked(found))
            && self.solutions == 0;
        if should_record(found, length) {
            let key = key_for(&self.cfg, self.options.approximate, &self.candidate);
            self.phase = Phase::Recording;
            proof {
                self.lemma_same_open(old(self));
            }
            Action::Store(key, length)
        } else {
            self.duplicate = bump(self.duplicate);
            proof {
                if in_order {
                    let f = self.frame();
                    let k = self.next_cmd - 1;
                    let succ = image(self.cfg, self.catalog@[k], rows(self.current.state));
                    lemma_listing_is(rows(self.candidate), succ);
                    assert(concat_rows(rows(self.candidate)) == key_of(succ));
                    assert(clause(
                        f,
                        self.known@,
                        rows(self.current.state),
                        self.current.length as int,
                        k,
                    ));
                    assert(self.expanding(self.next_cmd as int));
                }
                self.lemma_same_open(old(self));
            }
            let ghost mid = *self;
            let action = self.scan();
            proof {
                let c = mid.catalog@.len();
                let max = mid.cfg.max_len as nat;
                let k = mid.next_cmd as int;
                if self.phase() == Phase::Probing {
                    lemma_busy(c, max, mid.current.length, k, self.next_cmd as int);
                } else {
                    lemma_busy(c, max, mid.current.length, k, k);
                }
            }
            proof {
                assert(mid.popped_program() == old(self).popped_program());
                if self.phase() == Phase::Probing {
                    assert forall|k: int| old(self).cursor() <= k < self.cursor() - 1 implies !old(
                        self,
                    ).passes(k) by {
                        assert(mid.passes(k) == old(self).passes(k));
                        assert(!mid.passes(k));
                    }
                } else {
                    assert forall|k: int|
                        old(self).cursor() <= k < old(self).instructions().len() implies !old(
                        self,
                    ).passes(k) by {
                        assert(mid.passes(k) == old(self).passes(k));
                        assert(!mid.passes(k));
                    }
                }
            }
            action
        }
    }

    /// The length of a successor is recorded: the successor becomes an open
    /// entry, its program one instruction longer than that of the popped
    /// entry.
    fn on_recorded(&mut self) -> (action: Action)
        requires
            old(self).wf(),
            old(self).phase == Phase::Recording,
        ensures
            final(self).answers(old(self), action),
            final(self).went(old(self).open_view().insert(old(self).recorded_open()), action),
            action != Action::Finish(Outcome::Aborted),
            action is Lookup || action is Finish,
            !(action is Store),
            !(action is Emit),
            final(self).duplicate_count() == old(self).duplicate_count(),
            final(self).scanned(old(self), old(self).cursor() as int),
            final(self).known_map() == old(self).known_map().insert(
                concat_rows(old(self).successor()),
                (old(self).popped_length() + 1) as u8,
            ),
            old(self).exact() ==> final(self).exact(),
            old(self).exact() && admissible(old(self).frame()) && action == Action::Finish(
                Outcome::Exhausted,
            ) ==> unsolvable(old(self).frame()),
    {
        let cmd: Command = self.catalog[self.next_cmd - 1];
        let ghost nodes = self.trace;
        let ghost program = self.trace.program(self.current.node);
        let node = self.trace.extend(self.current.node, cmd);
        let ghost extended = *self;
        let mut cand: State = Vec::new();
        std::mem::swap(&mut self.candidate, &mut cand);
        let entry = OpenEntry { state: cand, node: Some(node), length: self.current.length + 1 };
        proof {
            let more = self.trace;
            let longer = program.push(cmd);
            assert(more.program(Some(node)) == longer);
            assert forall|id: usize| #[trigger]
                queue_entries(self.queue).contains_key(id) implies id < self.entries.len()
                && entry_ok(self.cfg, self.catalog@, self.origin@, more, self.entries@[id as int]) by {
                lemma_entry_stable(
                    self.cfg,
                    self.catalog@,
                    self.origin@,
                    nodes,
                    more,
                    self.entries@[id as int],
                );
            }
            lemma_entry_stable(self.cfg, self.catalog@, self.origin@, nodes, more, self.current);
            assert(from_catalog(self.catalog@, longer)) by {
                assert(self.catalog@.contains(self.catalog@[self.next_cmd - 1]));
                assert forall|i: int| 0 <= i < longer.len() implies self.catalog@.contains(
                    #[trigger] longer[i],
                ) by {
                    if i < program.len() {
                        assert(longer[i] == program[i]);
                    }
                }
            }
            lemma_replay_push(self.cfg, program, cmd, self.origin@);
            lemma_image_of_members(
                self.cfg,
                cmd,
                rows(self.current.state),
                replay(self.cfg, program, self.origin@),
            );
            lemma_members_chain(
                rows(entry.state),
                image(self.cfg, cmd, rows(self.current.state)),
                replay(self.cfg, longer, self.origin@),
            );
        }
        let ghost key = concat_rows(rows(entry.state));
        let ghost length = entry.length;
        let ghost was = self.known@;
        let ghost pairs = self.all_pairs();
        let ghost in_order = old(self).exact() && self.solutions == 0;
        self.known = Ghost(was.insert(key, length));
        let ghost ready = *self;
        self.open(entry);
        proof {
            // the trace holds one handle more, that of the entry just opened
            extended.lemma_same_nodes(old(self));
            ready.lemma_same_nodes(old(self));
            assert(old(self).holds_only(old(self).current.node));
            assert(self.open_nodes() == old(self).open_nodes().insert(node));
            assert(self.trace.handles() == old(self).trace.handles().insert(node));
            assert(self.trace.handles() =~= (match self.current.node {
                Some(n) => self.open_nodes().insert(n),
                None => self.open_nodes(),
            }));
            assert(self.holds_only(self.current.node));
        }
        proof {
            if in_order {
                let f = self.frame();
                let k = self.next_cmd - 1;
                let s = rows(self.current.state);
                let l = self.current.length as int;
                let succ = image(self.cfg, self.catalog@[k], s);
                assert(old(self).expanding(k));
                assert(self.current_pair() == old(self).current_pair());
                assert forall|p: (Seq<u8>, int)| #[trigger] pairs.contains(p) implies self.all_pairs().contains(
                    p,
                ) by {
                    if p != self.current_pair() {
                        assert(old(self).open_pairs().contains(p));
                        assert(self.open_pairs().contains(p));
                    }
                }
                assert(self.open_pairs().contains((key, length as int)));
                lemma_settled_record(f, was, pairs, self.all_pairs(), key, length);
                assert(bounded(self.known@, self.all_pairs())) by {
                    assert forall|p: (Seq<u8>, int)| #[trigger]
                        self.all_pairs().contains(p) implies recorded_within(
                        self.known@,
                        p.0,
                        p.1,
                    ) by {
                        if p == (key, length as int) {
                        } else {
                            if p != self.current_pair() {
                                assert(self.open_pairs().contains(p));
                                assert(old(self).open_pairs().contains(p));
                            }
                            assert(pairs.contains(p));
                            assert(recorded_within(was, p.0, p.1));
                        }
                    }
                }
                lemma_listing_is(old(self).successor(), succ);
                assert(key == key_of(succ));
                assert forall|j: int| 0 <= j < self.next_cmd implies #[trigger] clause(
                    f,
                    self.known@,
                    s,
                    l,
                    j,
                ) by {
                    if j < k {
                        assert(clause(f, was, s, l, j));
                        lemma_clause_monotone(f, was, self.known@, s, l, j);
                    }
                }
                assert(self.expanding(self.next_cmd as int));
            }
        }
        let ghost mid = *self;
        proof {
            let avail = old(self).open_view().insert(old(self).recorded_open());
            assert(extended.open_view() =~= old(self).open_view()) by {
                assert forall|t: Open| extended.open_view().contains(t) <==> old(
                    self,
                ).open_view().contains(t) by {
                    if extended.open_view().contains(t) {
                        let w = choose|w: usize| #[trigger]
                            queue_entries(extended.queue).contains_key(w) && extended.as_open(w)
                                == t;
                        assert(entry_ok(
                            old(self).cfg,
                            old(self).catalog@,
                            old(self).origin@,
                            old(self).trace,
                            old(self).entries@[w as int],
                        ));
                        assert(old(self).as_open(w) == t);
                    }
                    if old(self).open_view().contains(t) {
                        let w = choose|w: usize| #[trigger]
                            queue_entries(old(self).queue).contains_key(w) && old(self).as_open(w)
                                == t;
                        assert(entry_ok(
                            old(self).cfg,
                            old(self).catalog@,
                            old(self).origin@,
                            old(self).trace,
                            old(self).entries@[w as int],
                        ));
                        assert(extended.as_open(w) == t);
                    }
                }
            }
            assert(mid.open_view() =~= avail);
        }
        let action = self.scan();
        proof {
            let c = mid.catalog@.len();
            let max = mid.cfg.max_len as nat;
            let k = mid.next_cmd as int;
            assert(mid.open_total() == old(self).open_total() + weight_at(
                c,
                max,
                (mid.current.length + 1) as u8,
            ));
            lemma_busy(c, max, mid.current.length, k, k);
            if self.phase() == Phase::Probing {
                lemma_busy(c, max, mid.current.length, k + 1, self.next_cmd as int);
            }
        }
        proof {
            assert(mid.popped_program() == old(self).popped_program());
            if self.phase() == Phase::Probing {
                assert forall|k: int| old(self).cursor() <= k < self.cursor() - 1 implies !old(
                    self,
                ).passes(k) by {
                    assert(mid.passes(k) == old(self).passes(k));
                    assert(!mid.passes(k));
                }
            } else {
                assert forall|k: int|
                    old(self).cursor() <= k < old(self).instructions().len() implies !old(
                    self,
                ).passes(k) by {
                    assert(mid.passes(k) == old(self).passes(k));
                    assert(!mid.passes(k));
                }
            }
        }
        action
    }

    /// What a step decides, by where the driver stood and what it was told.
    pub open spec fn follows(&self, before: &Driver, event: Event, action: Action) -> bool {
        let same_counts = self.duplicate_count() == before.duplicate_count() && self.cut_count()
            == before.cut_count();
        let same_open = self.open_view() == before.open_view();
        if before.phase() == Phase::Done {
            // over is over
            action == Action::Finish(before.outcome()) && same_counts
        } else if !before.expects(event) {
            // the store failed, or the answer does not fit what was asked
            action == Action::Finish(Outcome::Aborted) && same_counts
        } else if action == Action::Finish(Outcome::Aborted) {
            // a search is given up for no other reason
            false
        } else {
            match before.phase() {
                Phase::Idle => {
                    &&& action is Store
                    &&& self.phase() == Phase::Seeding
                    &&& same_counts
                    &&& same_open
                },
                Phase::Seeding => {
                    // the initial joint state is the first entry popped
                    &&& action is Lookup
                    &&& self.popped() == before.origin()
                    &&& self.popped_length() == 0
                    &&& self.popped_program() == Seq::<Command>::empty()
                    &&& self.visited_count() == 1
                    &&& same_counts
                    &&& self.moved_on(Set::<Open>::empty().insert(self.popped_open()), action)
                },
                Phase::Checking => {
                    let found = event->Looked_0;
                    if state_goal(before.config(), before.popped()) {
                        // a solution, whatever the store holds for its key
                        &&& action is Emit
                        &&& action->Emit_0@ == before.popped_program()
                        &&& self.visited_count() == before.visited_count()
                        &&& same_counts
                        &&& same_open
                    } else if superseded(found, before.popped_length()) {
                        // stale: dropped and counted, and on to the next entry
                        &&& self.duplicate_count() == bumped(before.duplicate_count())
                        &&& self.cut_count() == before.cut_count()
                        &&& self.moved_on(before.open_view(), action)
                    } else if before.popped_length() >= before.config().max_len {
                        // too long to be expanded: on to the next entry
                        &&& same_counts
                        &&& self.moved_on(before.open_view(), action)
                    } else {
                        // expanded from the first catalog entry on
                        &&& action is Lookup || action is Finish
                        &&& self.duplicate_count() == before.duplicate_count()
                        &&& self.scanned(before, 0)
                        &&& self.went(before.open_view(), action)
                    }
                },
                Phase::Emitting => {
                    if before.settings().all_solutions {
                        same_counts && self.moved_on(before.open_view(), action)
                    } else {
                        action == Action::Finish(Outcome::SolutionFound) && same_counts && same_open
                    }
                },
                Phase::Probing => {
                    let found = event->Looked_0;
                    if improves(found, (before.popped_length() + 1) as u8) {
                        // new, or reached by a shorter program: to be recorded
                        &&& action is Store
                        &&& self.phase() == Phase::Recording
                        &&& self.successor() == before.successor()
                        &&& self.popped() == before.popped()
                        &&& self.popped_length() == before.popped_length()
                        &&& self.popped_program() == before.popped_program()
                        &&& self.cursor() == before.cursor()
                        &&& self.visited_count() == before.visited_count()
                        &&& same_counts
                        &&& same_open
                    } else {
                        // a duplicate: counted, and on with the catalog
                        &&& action is Lookup || action is Finish
                        &&& self.duplicate_count() == bumped(before.duplicate_count())
                        &&& self.scanned(before, before.cursor() as int)
                        &&& self.went(before.open_view(), action)
                    }
                },
                Phase::Recording => {
                    // the successor is opened, and on with the catalog
                    &&& action is Lookup || action is Finish
                    &&& self.duplicate_count() == before.duplicate_count()
                    &&& self.scanned(before, before.cursor() as int)
                    &&& self.went(before.open_view().insert(before.recorded_open()), action)
                },
                Phase::Done => true,
            }
        }
    }

    /// Takes one step of the search: takes the answer to what was asked last
    /// and hands out what is asked next. An answer that does not fit what
    /// was asked, and the failure of the visited store, end the search as
    /// aborted; once it is over every step says so again.
    pub fn step(&mut self, event: Event) -> (action: Action)
        requires
            old(self).wf(),
        ensures
            final(self).answers(old(self), action),
            final(self).follows(old(self), event, action),
            final(self).accounts(old(self), event, action),
    {
        match self.phase {
            Phase::Done => Action::Finish(self.outcome),
            Phase::Idle => match event {
                Event::Start => self.on_start(),
                _ => self.give_up(),
            },
            Phase::Seeding => match event {
                Event::Stored => self.on_seeded(),
                _ => self.give_up(),
            },
            Phase::Checking => match event {
                Event::Looked(found) => self.on_checked(found),
                _ => self.give_up(),
            },
            Phase::Emitting => match event {
                Event::Emitted => self.on_emitted(),
                _ => self.give_up(),
            },
            Phase::Probing => match event {
                Event::Looked(found) => self.on_probed(found),
                _ => self.give_up(),
            },
            Phase::Recording => match event {
                Event::Stored => self.on_recorded(),
                _ => self.give_up(),
            },
        }
    }

    /// Gives the search up.
    fn give_up(&mut self) -> (action: Action)
        requires
            old(self).wf(),
        ensures
            final(self).answers(old(self), action),
            final(self).open_view() == old(self).open_view(),
            action == Action::Finish(Outcome::Aborted),
            final(self).visited_count() == old(self).visited_count(),
            final(self).duplicate_count() == old(self).duplicate_count(),
            final(self).cut_count() == old(self).cut_count(),
            final(self).known_map() == old(self).known_map(),
            final(self).exact(),
    {
        self.phase = Phase::Done;
        self.outcome = Outcome::Aborted;
        proof {
            self.lemma_same_open(old(self));
        }
        Action::Finish(Outcome::Aborted)
    }

    /// How many entries were popped.
    pub fn visited(&self) -> (n: u64)
        ensures
            n == self.visited_count(),
    {
        self.visited
    }

    /// How many entries and successors were dropped as stale or duplicate.
    pub fn duplicate(&self) -> (n: u64)
        ensures
            n == self.duplicate_count(),
    {
        self.duplicate
    }

    /// How many successors were cut as not viable or over the budget.
    pub fn cut(&self) -> (n: u64)
        ensures
            n == self.cut_count(),
    {
        self.cut
    }

    /// How many solutions were handed out.
    pub fn solutions(&self) -> (n: u64)
        ensures
            n == self.solution_count(),
    {
        self.solutions
    }
}

} // verus!
