//! The search run to its end against the visited store that lives in memory.

use vstd::prelude::*;
use crate::catalog::{ConfigError, in_catalog, possible_commands};
use crate::config::Config;
use crate::driver::{Action, Driver, Evaluation, Event, Options, Outcome, Phase, state_key};
use crate::optimal::{admissible, below, lookup, shortest, unsolvable, lemma_valid_of_members};
use crate::initial::{MAX_NUMBERS, initial_state, is_initial_row};
use crate::machine::Command;
use crate::order::rows;
use crate::program::{from_catalog, replay, run_row, solves, lemma_replay_pointwise};
use crate::viability::row_sorted;
use crate::store::{MemoryStore, improves};
use crate::tables::min_instructions;

verus! {

/// What a search has to show for itself.
pub struct SearchReport {
    /// How the search ended.
    pub outcome: Outcome,
    /// The programs that were found, in the order in which they were found.
    pub programs: Vec<Vec<Command>>,
    /// How many entries were popped.
    pub visited: u64,
    /// How many entries and successors were dropped as stale or duplicate.
    pub duplicate: u64,
    /// How many successors were cut as not viable or over the budget.
    pub cut: u64,
}

/// The search can be trusted to overlook nothing: its set-up is admissible,
/// its bookkeeping is in order, and the store holds nothing yet.
pub open spec fn trusty(driver: &Driver, store: Map<Seq<u8>, u8>) -> bool {
    &&& admissible(driver.frame())
    &&& !driver.settings().approximate
    &&& driver.exact()
    &&& driver.known_map() == Map::<Seq<u8>, u8>::empty()
    &&& store == Map::<Seq<u8>, u8>::empty()
}

/// Every program of the report is made of catalog instructions, is no longer
/// than allowed, and sorts every row of the initial joint state.
pub open spec fn report_sound(driver: &Driver, programs: Seq<Vec<Command>>) -> bool {
    forall|i: int|
        0 <= i < programs.len() ==> {
            &&& solves(driver.config(), (#[trigger] programs[i])@, driver.origin())
            &&& programs[i]@.len() <= driver.config().max_len
            &&& from_catalog(driver.instructions(), programs[i]@)
        }
}

/// Runs a search to its end: takes the driver step by step, looks up and
/// records in the store what it asks for, and collects the programs it hands
/// out. The store loses nothing on the way: every key stays, none with a
/// larger length. The store in memory does not fail, so the search is never
/// given up: it ends with a program, or its open set runs empty, and it runs
/// empty where no program within the longest length allowed sorts.
pub fn search(driver: &mut Driver, store: &mut MemoryStore) -> (report: SearchReport)
    requires
        old(driver).wf(),
        old(driver).phase() == Phase::Idle,
        old(driver).solution_count() == 0,
    ensures
        final(driver).wf(),
        final(driver).phase() == Phase::Done,
        final(driver).config() == old(driver).config(),
        final(driver).origin() == old(driver).origin(),
        final(driver).instructions() == old(driver).instructions(),
        report.outcome == final(driver).outcome(),
        report.visited == final(driver).visited_count(),
        report.duplicate == final(driver).duplicate_count(),
        report.cut == final(driver).cut_count(),
        report_sound(final(driver), report.programs@),
        report.outcome == Outcome::SolutionFound ==> report.programs.len() > 0,
        report.outcome == Outcome::Exhausted ==> report.programs.len() == 0,
        report.outcome != Outcome::Aborted,
        !old(driver).settings().all_solutions ==> report.programs.len() <= 1,
        final(driver).frame() == old(driver).frame(),
        unsolvable(old(driver).frame()) ==> report.outcome == Outcome::Exhausted,
        below(final(store)@, old(store)@),
        trusty(old(driver), old(store)@) ==> {
            &&& report.outcome == Outcome::Exhausted ==> unsolvable(old(driver).frame())
            &&& old(driver).settings().evaluation == Evaluation::Dijkstra && report.programs.len()
                > 0 ==> shortest(old(driver).frame(), report.programs@[0]@.len() as int)
        },
{
    let mut programs: Vec<Vec<Command>> = Vec::new();
    let mut event = Event::Start;
    let ghost good = trusty(old(driver), old(store)@);
    loop
        invariant
            driver.frame() == old(driver).frame(),
            good == trusty(old(driver), old(store)@),
            good ==> driver.exact() && driver.faithful(event) && store@ == driver.known_after(event),
            good && driver.settings().evaluation == Evaluation::Dijkstra && programs.len() > 0
                ==> shortest(driver.frame(), programs@[0]@.len() as int),
            driver.wf(),
            driver.phase() != Phase::Done,
            driver.expects(event),
            driver.config() == old(driver).config(),
            driver.origin() == old(driver).origin(),
            driver.instructions() == old(driver).instructions(),
            driver.settings() == old(driver).settings(),
            report_sound(driver, programs@),
            below(store@, old(store)@),
            event is Looked ==> event->Looked_0 == lookup(
                store@,
                state_key(driver.config(), driver.settings().approximate, driver.pending()),
            ),
            (programs.len() > 0) == (driver.solution_count() > 0),
            !driver.settings().all_solutions ==> (programs.len() == 0 || (programs.len() == 1
                && driver.phase() == Phase::Emitting)),
        decreases driver.work_left(), driver.phase_left(),
    {
        let ghost before = *driver;
        let action = driver.step(event);
        match action {
            Action::Lookup(key) => {
                event = Event::Looked(store.get(&key));
            },
            Action::Store(key, length) => {
                proof {
                    // a length is recorded at the start, and for a successor
                    // that was found to be new or reached by a shorter program
                    if before.phase() == Phase::Probing {
                        assert(improves(event->Looked_0, length));
                    }
                }
                store.insert(key, length);
                event = Event::Stored;
            },
            Action::Emit(program) => {
                programs.push(program);
                event = Event::Emitted;
            },
            Action::Finish(outcome) => {
                proof {
                    if outcome == Outcome::SolutionFound {
                        let f = old(driver).frame();
                        let q = programs@[0]@;
                        assert(programs.len() > 0);
                        assert(from_catalog(f.catalog, q));
                        assert(q.len() <= f.cfg.max_len);
                        assert(solves(f.cfg, q, f.origin));
                    }
                }
                return SearchReport {
                    outcome,
                    programs,
                    visited: driver.visited(),
                    duplicate: driver.duplicate(),
                    cut: driver.cut(),
                };
            },
        }
    }
}

/// Every instruction of the program is one that is generated for the
/// machine.
pub open spec fn catalog_program(cfg: Config, q: Seq<Command>) -> bool {
    forall|i: int| 0 <= i < q.len() ==> in_catalog(cfg, #[trigger] q[i])
}

/// The program sorts the values in whatever order the machine starts with
/// them.
pub open spec fn sorts_all(cfg: Config, q: Seq<Command>) -> bool {
    forall|r: Seq<u8>| is_initial_row(cfg, r) ==> row_sorted(cfg, #[trigger] run_row(cfg, q, r))
}

/// A program sorts the initial joint state of a machine if and only if it
/// sorts the values in whatever order the machine starts with them.
pub proof fn lemma_solves_is_sorts_all(cfg: Config, q: Seq<Command>, origin: Seq<Seq<u8>>)
    requires
        forall|r: Seq<u8>| #![trigger origin.contains(r)] origin.contains(r) <==> is_initial_row(cfg, r),
    ensures
        solves(cfg, q, origin) == sorts_all(cfg, q),
{
    lemma_replay_pointwise(cfg, q, origin);
    let out = replay(cfg, q, origin);
    if solves(cfg, q, origin) {
        assert forall|r: Seq<u8>| is_initial_row(cfg, r) implies row_sorted(
            cfg,
            #[trigger] run_row(cfg, q, r),
        ) by {
            assert(origin.contains(r));
            let j = choose|j: int| 0 <= j < origin.len() && origin[j] == r;
            assert(row_sorted(cfg, out[j]));
        }
    }
    if sorts_all(cfg, q) {
        assert forall|i: int| 0 <= i < out.len() implies row_sorted(cfg, #[trigger] out[i]) by {
            assert(origin.contains(origin[i]));
            assert(row_sorted(cfg, run_row(cfg, q, origin[i])));
        }
    }
}

/// A program is made of instructions of the generated catalog if and only
/// if each of its instructions is one that is generated for the machine.
pub proof fn lemma_catalog_program(cfg: Config, catalog: Seq<Command>, q: Seq<Command>)
    requires
        forall|c: Command| #![trigger catalog.contains(c)] catalog.contains(c) <==> in_catalog(cfg, c),
    ensures
        from_catalog(catalog, q) == catalog_program(cfg, q),
{
    if from_catalog(catalog, q) {
        assert forall|i: int| 0 <= i < q.len() implies in_catalog(cfg, #[trigger] q[i]) by {
            assert(catalog.contains(q[i]));
        }
    }
    if catalog_program(cfg, q) {
        assert forall|i: int| 0 <= i < q.len() implies catalog.contains(#[trigger] q[i]) by {
            assert(in_catalog(cfg, q[i]));
        }
    }
}

/// Searches for a program that sorts every ordering of the values of a
/// machine: builds the catalog and the initial joint state of the machine,
/// and the table of lower bounds where the options ask for it and the
/// machine allows it, and runs a search on them against a store in memory.
/// Sizes that cannot be worked with are refused before anything is searched:
/// a machine that is not in order, and one with more than ten values, whose
/// initial joint state would have more than 3628800 rows.
///
/// Every program handed out sorts, and the search is never given up: where
/// the longest length allowed is below what sorting takes, it runs out. On a
/// machine
/// without lanes a search that runs out has overlooked no program, and the
/// first program of a search by length is a shortest one.
pub fn synthesize(cfg: &Config, options: Options) -> (res: Result<SearchReport, ConfigError>)
    ensures
        res.is_ok() <==> (cfg.wf() && cfg.numbers <= MAX_NUMBERS && (options.approximate
            ==> cfg.regs_spec() <= 255)),
        match res {
            Ok(report) => {
                &&& forall|i: int|
                    0 <= i < report.programs.len() ==> {
                        &&& sorts_all(*cfg, (#[trigger] report.programs@[i])@)
                        &&& catalog_program(*cfg, report.programs@[i]@)
                        &&& report.programs@[i]@.len() <= cfg.max_len
                    }
                &&& report.outcome == Outcome::SolutionFound ==> report.programs.len() > 0
                &&& report.outcome == Outcome::Exhausted ==> report.programs.len() == 0
                &&& report.outcome != Outcome::Aborted
                &&& (forall|q: Seq<Command>|
                    catalog_program(*cfg, q) && q.len() <= cfg.max_len ==> !#[trigger] sorts_all(
                        *cfg,
                        q,
                    )) ==> report.outcome == Outcome::Exhausted
                &&& !options.all_solutions ==> report.programs.len() <= 1
                &&& report.outcome == Outcome::SolutionFound ==> exists|q: Seq<Command>|
                    catalog_program(*cfg, q) && q.len() <= cfg.max_len && #[trigger] sorts_all(
                        *cfg,
                        q,
                    )
                &&& cfg.lanes == 0 && !options.approximate && report.outcome == Outcome::Exhausted
                    ==> forall|
                    q: Seq<Command>,
                |
                    catalog_program(*cfg, q) && q.len() <= cfg.max_len ==> !#[trigger] sorts_all(
                        *cfg,
                        q,
                    )
                &&& cfg.lanes == 0 && !options.approximate && options.evaluation
                    == Evaluation::Dijkstra && report.programs.len() > 0 ==> forall|q: Seq<Command>|
                    catalog_program(*cfg, q) && q.len() <= cfg.max_len && #[trigger] sorts_all(
                        *cfg,
                        q,
                    ) ==> report.programs@[0]@.len() <= q.len()
            },
            Err(e) => e == ConfigError::BadSizes,
        },
{
    let initial = match initial_state(cfg) {
        Ok(state) => state,
        Err(e) => {
            return Err(e);
        },
    };
    if options.approximate && cfg.regs() > 255 {
        return Err(ConfigError::BadSizes);
    }
    let catalog = possible_commands(cfg);
    let ghost commands = catalog@;
    proof {
        assert forall|i: int| 0 <= i < rows(initial).len() implies (#[trigger] rows(
            initial,
        )[i]).len() == cfg.width_spec() by {}
    }
    let table = if options.cutoff {
        min_instructions(cfg, &catalog)
    } else {
        None
    };
    let mut driver = match Driver::new(*cfg, options, catalog, &initial, table) {
        Ok(driver) => driver,
        Err(e) => {
            return Err(ConfigError::BadSizes);
        },
    };
    let mut store = MemoryStore::new();
    let ghost origin = driver.origin();
    proof {
        assert forall|r: Seq<u8>| #![trigger origin.contains(r)] origin.contains(r) <==> is_initial_row(
            *cfg,
            r,
        ) by {
            assert(origin.contains(r) <==> rows(initial).contains(r));
        }
        if cfg.lanes == 0 {
            lemma_valid_of_members(*cfg, origin, rows(initial));
            assert(admissible(driver.frame()));
        }
    }
    let report = search(&mut driver, &mut store);
    proof {
        if report.outcome == Outcome::SolutionFound {
            lemma_solves_is_sorts_all(*cfg, report.programs@[0]@, origin);
            lemma_catalog_program(*cfg, commands, report.programs@[0]@);
            assert(sorts_all(*cfg, report.programs@[0]@));
        }
        assert forall|i: int| 0 <= i < report.programs.len() implies {
            &&& sorts_all(*cfg, (#[trigger] report.programs@[i])@)
            &&& catalog_program(*cfg, report.programs@[i]@)
        } by {
            lemma_solves_is_sorts_all(*cfg, report.programs@[i]@, origin);
            lemma_catalog_program(*cfg, commands, report.programs@[i]@);
        }
        if cfg.lanes == 0 && !options.approximate {
            let f = driver.frame();
            if report.outcome == Outcome::Exhausted {
                assert forall|q: Seq<Command>|
                    catalog_program(*cfg, q) && q.len() <= cfg.max_len implies !#[trigger] sorts_all(
                    *cfg,
                    q,
                ) by {
                    lemma_solves_is_sorts_all(*cfg, q, origin);
                    lemma_catalog_program(*cfg, commands, q);
                    assert(!solves(f.cfg, q, f.origin));
                }
            }
            if options.evaluation == Evaluation::Dijkstra && report.programs.len() > 0 {
                assert forall|q: Seq<Command>|
                    catalog_program(*cfg, q) && q.len() <= cfg.max_len && #[trigger] sorts_all(
                        *cfg,
                        q,
                    ) implies report.programs@[0]@.len() <= q.len() by {
                    lemma_solves_is_sorts_all(*cfg, q, origin);
                    lemma_catalog_program(*cfg, commands, q);
                    assert(solves(f.cfg, q, f.origin));
                }
            }
        }
    }
    Ok(report)
}

} // verus!
