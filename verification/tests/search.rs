use sortsynth::catalog::{possible_commands, ConfigError};
use sortsynth::config::Config;
use sortsynth::driver::{Action, Driver, Evaluation, Event, Options, Outcome};
use sortsynth::initial::initial_state;
use sortsynth::machine::{Command, CMOVG, CMOVL, CMP, MOV};
use sortsynth::program::{program_solves, run_program};
use sortsynth::search::{search, synthesize, SearchReport};
use sortsynth::store::MemoryStore;
use sortsynth::tables::min_instructions;
use sortsynth::viability::is_goal;

fn options(evaluation: Evaluation) -> Options {
    Options { evaluation, all_solutions: false, cutoff: false, approximate: false }
}

fn run(cfg: &Config, opts: Options) -> SearchReport {
    synthesize(cfg, opts).unwrap()
}

#[test]
fn three_values_one_scratch_register_need_eleven_instructions() {
    let cfg = Config::new(3, 1, 11);
    let report = run(
        &cfg,
        Options { evaluation: Evaluation::AStar, all_solutions: false, cutoff: true, approximate: false },
    );
    assert_eq!(report.outcome, Outcome::SolutionFound);
    assert_eq!(report.programs.len(), 1);
    let program = &report.programs[0];
    assert_eq!(program.len(), 11);
    let catalog = possible_commands(&cfg);
    for cmd in program.iter() {
        assert!(catalog.contains(cmd));
        assert!(cmd.0 == CMP || cmd.0 == MOV || cmd.0 == CMOVG || cmd.0 == CMOVL);
        assert!(cmd.1 < 4 && cmd.2 < 4);
    }
    let initial = initial_state(&cfg).unwrap();
    assert!(program_solves(&cfg, program, &initial));
}

#[test]
fn two_values_without_scratch_register_cannot_be_sorted() {
    // compare, then conditional move: the larger value is overwritten and lost
    let cfg = Config::new(2, 0, 6);
    let initial = initial_state(&cfg).unwrap();
    assert_eq!(initial, vec![vec![1u8, 2, 0, 0], vec![2u8, 1, 0, 0]]);
    let program: Vec<Command> = vec![(CMP, 0, 1), (CMOVG, 0, 1)];
    let last = run_program(&cfg, &program, &initial);
    assert_eq!(last, vec![vec![1u8, 1, 0, 1], vec![1u8, 2, 1, 0]]);
    assert!(!is_goal(&cfg, &last));
    assert!(!program_solves(&cfg, &program, &initial));
    for evaluation in [Evaluation::Dijkstra, Evaluation::AStar, Evaluation::Greedy] {
        let report = run(&cfg, options(evaluation));
        assert_eq!(report.outcome, Outcome::Exhausted);
        assert!(report.programs.is_empty());
    }
}

#[test]
fn two_values_one_scratch_register_need_four_instructions() {
    let cfg = Config::new(2, 1, 6);
    let initial = initial_state(&cfg).unwrap();
    for cutoff in [false, true] {
        let report =
            run(&cfg, Options { evaluation: Evaluation::Dijkstra, all_solutions: false, cutoff, approximate: false });
        assert_eq!(report.outcome, Outcome::SolutionFound);
        assert_eq!(report.programs.len(), 1);
        assert_eq!(report.programs[0].len(), 4);
        assert!(program_solves(&cfg, &report.programs[0], &initial));
    }
    // a known program of four instructions
    let known: Vec<Command> = vec![(MOV, 2, 0), (CMP, 0, 1), (CMOVG, 0, 1), (CMOVG, 1, 2)];
    assert!(program_solves(&cfg, &known, &initial));
    // and no program of three instructions sorts: try them all
    let catalog = possible_commands(&cfg);
    for a in catalog.iter() {
        for b in catalog.iter() {
            for c in catalog.iter() {
                assert!(!program_solves(&cfg, &vec![*a, *b, *c], &initial));
            }
        }
    }
}

#[test]
fn a_length_below_the_minimum_exhausts_the_search() {
    for evaluation in [Evaluation::Dijkstra, Evaluation::AStar, Evaluation::Greedy] {
        for cutoff in [false, true] {
            let cfg = Config::new(2, 1, 3);
            let report = run(&cfg, Options { evaluation, all_solutions: false, cutoff, approximate: false });
            assert_eq!(report.outcome, Outcome::Exhausted);
            assert!(report.programs.is_empty());
            assert!(report.visited > 0);
        }
    }
    let cfg = Config::new(3, 1, 4);
    let report = run(&cfg, options(Evaluation::AStar));
    assert_eq!(report.outcome, Outcome::Exhausted);
    let none = Config::new(2, 1, 0);
    let report = run(&none, options(Evaluation::Dijkstra));
    assert_eq!(report.outcome, Outcome::Exhausted);
    assert_eq!(report.visited, 1);
}

#[test]
fn one_value_is_sorted_by_the_empty_program() {
    let cfg = Config::new(1, 0, 5);
    let report = run(&cfg, options(Evaluation::Dijkstra));
    assert_eq!(report.outcome, Outcome::SolutionFound);
    assert_eq!(report.programs, vec![Vec::<Command>::new()]);
    assert_eq!(report.visited, 1);
    assert_eq!(report.duplicate, 0);
    assert_eq!(report.cut, 0);
}

#[test]
fn every_solution_sorts_when_replayed() {
    let cfg = Config::new(2, 1, 5);
    let initial = initial_state(&cfg).unwrap();
    for evaluation in [Evaluation::Dijkstra, Evaluation::AStar, Evaluation::Greedy] {
        let report = run(&cfg, Options { evaluation, all_solutions: true, cutoff: false, approximate: false });
        assert_eq!(report.outcome, Outcome::SolutionFound);
        assert!(report.programs.len() > 1);
        for program in report.programs.iter() {
            assert!(program.len() >= 4 && program.len() <= 5);
            assert!(program_solves(&cfg, program, &initial));
            assert!(is_goal(&cfg, &run_program(&cfg, program, &initial)));
        }
    }
}

#[test]
fn the_cutoff_counts_as_cut_and_loses_no_solution() {
    let cfg = Config::new(2, 1, 4);
    let plain = run(&cfg, Options { evaluation: Evaluation::Dijkstra, all_solutions: true, cutoff: false, approximate: false });
    let cut = run(&cfg, Options { evaluation: Evaluation::Dijkstra, all_solutions: true, cutoff: true, approximate: false });
    assert_eq!(plain.outcome, Outcome::SolutionFound);
    assert_eq!(cut.outcome, Outcome::SolutionFound);
    assert_eq!(plain.programs.len(), cut.programs.len());
    assert!(cut.visited < plain.visited);
    assert!(cut.cut > 0);
}

#[test]
fn sizes_out_of_range_are_refused() {
    for cfg in [Config::new(0, 1, 5), Config::new(11, 0, 5), Config::new(256, 0, 5)] {
        match synthesize(&cfg, options(Evaluation::Dijkstra)) {
            Err(e) => assert_eq!(e, ConfigError::BadSizes),
            Ok(_) => panic!("accepted"),
        }
        assert_eq!(initial_state(&cfg), Err(ConfigError::BadSizes));
    }
}

#[test]
fn initial_state_has_one_row_for_each_ordering() {
    let cfg = Config::new(3, 1, 11);
    assert_eq!(
        initial_state(&cfg).unwrap(),
        vec![
            vec![1u8, 2, 3, 0, 0, 0],
            vec![1u8, 3, 2, 0, 0, 0],
            vec![2u8, 1, 3, 0, 0, 0],
            vec![2u8, 3, 1, 0, 0, 0],
            vec![3u8, 1, 2, 0, 0, 0],
            vec![3u8, 2, 1, 0, 0, 0]
        ]
    );
    let wide = Config::with_lanes(2, 1, 5).unwrap();
    assert_eq!(
        initial_state(&wide).unwrap(),
        vec![vec![1u8, 2, 0, 0, 0, 1, 2, 0], vec![2u8, 1, 0, 0, 0, 2, 1, 0]]
    );
    assert_eq!(initial_state(&Config::new(4, 0, 5)).unwrap().len(), 24);
    assert_eq!(initial_state(&Config::new(1, 2, 5)).unwrap(), vec![vec![1u8, 0, 0, 0, 0]]);
}

#[test]
fn a_set_up_that_does_not_fit_is_refused() {
    let cfg = Config::new(2, 1, 5);
    let opts = options(Evaluation::Dijkstra);
    let good = initial_state(&cfg).unwrap();
    assert!(Driver::new(cfg, opts, possible_commands(&cfg), &good, None).is_ok());
    match Driver::new(Config::new(0, 1, 5), opts, Vec::new(), &good, None) {
        Err(e) => assert_eq!(e, ConfigError::BadSizes),
        Ok(_) => panic!("accepted"),
    }
    match Driver::new(cfg, opts, vec![(CMP, 0, 1), (MOV, 0, 3)], &good, None) {
        Err(e) => assert_eq!(e, ConfigError::BadCommand(1)),
        Ok(_) => panic!("accepted"),
    }
    let short = vec![vec![1u8, 2, 0, 0, 0], vec![2u8, 1, 0, 0]];
    match Driver::new(cfg, opts, possible_commands(&cfg), &short, None) {
        Err(e) => assert_eq!(e, ConfigError::BadRow(1)),
        Ok(_) => panic!("accepted"),
    }
    // a value that is no rank, and a flag that is neither 0 nor 1
    for (bad, at) in [
        (vec![vec![3u8, 2, 0, 0, 0], vec![2u8, 1, 0, 0, 0]], 0),
        (vec![vec![1u8, 2, 0, 0, 0], vec![2u8, 1, 0, 0, 0], vec![2u8, 1, 9, 0, 0]], 2),
        (vec![vec![1u8, 2, 0, 0, 0], vec![2u8, 1, 0, 2, 0]], 1),
        (vec![vec![1u8, 2, 0, 0, 2]], 0),
    ] {
        match Driver::new(cfg, opts, possible_commands(&cfg), &bad, None) {
            Err(e) => assert_eq!(e, ConfigError::BadRow(at)),
            Ok(_) => panic!("accepted"),
        }
        match sortsynth::generation::Generations::new(cfg, possible_commands(&cfg), &bad) {
            Err(e) => assert_eq!(e, ConfigError::BadRow(at)),
            Ok(_) => panic!("accepted"),
        }
        assert_eq!(sortsynth::catalog::check_rows(&cfg, &bad), Err(ConfigError::BadRow(at)));
    }
    assert_eq!(sortsynth::catalog::check_rows(&cfg, &good), Ok(()));
    assert!(sortsynth::catalog::check_row(&cfg, &vec![0, 0, 2, 1, 1]));
}

#[test]
fn a_table_is_used_where_the_settings_ask_for_the_cutoff() {
    let cfg = Config::new(2, 1, 4);
    let catalog = possible_commands(&cfg);
    let initial = initial_state(&cfg).unwrap();
    let run = |cutoff: bool, with_table: bool| {
        let table = if with_table { min_instructions(&cfg, &catalog) } else { None };
        let opts = Options { evaluation: Evaluation::Dijkstra, all_solutions: true, cutoff, approximate: false };
        let mut driver = Driver::new(cfg, opts, catalog.clone(), &initial, table).unwrap();
        let mut store = MemoryStore::new();
        let report = search(&mut driver, &mut store);
        (report.programs.len(), report.visited, report.cut)
    };
    let plain = run(false, false);
    // the table is dropped where the cutoff is not asked for
    assert_eq!(run(false, true), plain);
    // with the cutoff more is cut and less visited, and no program is lost
    let cut = run(true, true);
    assert_eq!(cut.0, plain.0);
    assert!(cut.2 > plain.2);
    assert!(cut.1 < plain.1);
    // without a table there is nothing to go by
    assert_eq!(run(true, false), plain);
}

#[test]
fn the_driver_asks_step_by_step() {
    let cfg = Config::new(2, 1, 5);
    let initial = vec![vec![2u8, 1, 0, 0, 0], vec![1u8, 2, 0, 0, 0]];
    let mut driver =
        Driver::new(cfg, options(Evaluation::Dijkstra), possible_commands(&cfg), &initial, None)
            .unwrap();
    // the initial joint state is recorded with length 0, its rows in order
    match driver.step(Event::Start) {
        Action::Store(key, length) => {
            assert_eq!(key, vec![1, 2, 0, 0, 0, 2, 1, 0, 0, 0]);
            assert_eq!(length, 0);
        }
        other => panic!("{:?}", other),
    }
    // then it is popped and looked up
    match driver.step(Event::Stored) {
        Action::Lookup(key) => assert_eq!(key, vec![1, 2, 0, 0, 0, 2, 1, 0, 0, 0]),
        other => panic!("{:?}", other),
    }
    assert_eq!(driver.visited(), 1);
    // the first four moves overwrite a value: their successors are cut; the
    // move of the first register into the scratch register is the first kept
    match driver.step(Event::Looked(Some(0))) {
        Action::Lookup(key) => assert_eq!(key, vec![1, 2, 1, 0, 0, 2, 1, 2, 0, 0]),
        other => panic!("{:?}", other),
    }
    assert_eq!(driver.cut(), 4);
    // a successor that the store holds with the same length is a duplicate
    match driver.step(Event::Looked(Some(1))) {
        Action::Lookup(key) => assert_eq!(key, vec![1, 2, 2, 0, 0, 2, 1, 1, 0, 0]),
        other => panic!("{:?}", other),
    }
    assert_eq!(driver.duplicate(), 1);
    // one that the store holds with a larger length is recorded
    match driver.step(Event::Looked(Some(2))) {
        Action::Store(key, length) => {
            assert_eq!(key, vec![1, 2, 2, 0, 0, 2, 1, 1, 0, 0]);
            assert_eq!(length, 1);
        }
        other => panic!("{:?}", other),
    }
    assert_eq!(driver.duplicate(), 1);
    // the failure of the store ends the search
    match driver.step(Event::Failed) {
        Action::Finish(outcome) => assert_eq!(outcome, Outcome::Aborted),
        other => panic!("{:?}", other),
    }
    match driver.step(Event::Stored) {
        Action::Finish(outcome) => assert_eq!(outcome, Outcome::Aborted),
        other => panic!("{:?}", other),
    }
    assert_eq!(driver.solutions(), 0);
}

#[test]
fn an_answer_that_was_not_asked_for_ends_the_search() {
    let cfg = Config::new(2, 1, 5);
    let initial = initial_state(&cfg).unwrap();
    let events = [Event::Stored, Event::Looked(None), Event::Emitted, Event::Failed];
    for event in events {
        let mut driver =
            Driver::new(cfg, options(Evaluation::AStar), possible_commands(&cfg), &initial, None)
                .unwrap();
        match driver.step(event) {
            Action::Finish(outcome) => assert_eq!(outcome, Outcome::Aborted),
            other => panic!("{:?}", other),
        }
    }
    let mut driver =
        Driver::new(cfg, options(Evaluation::AStar), possible_commands(&cfg), &initial, None)
            .unwrap();
    assert!(matches!(driver.step(Event::Start), Action::Store(_, 0)));
    match driver.step(Event::Start) {
        Action::Finish(outcome) => assert_eq!(outcome, Outcome::Aborted),
        other => panic!("{:?}", other),
    }
}

#[test]
fn a_sorted_entry_is_handed_out_at_once() {
    let cfg = Config::new(1, 0, 5);
    let initial = initial_state(&cfg).unwrap();
    let mut driver =
        Driver::new(cfg, options(Evaluation::Dijkstra), possible_commands(&cfg), &initial, None)
            .unwrap();
    assert!(matches!(driver.step(Event::Start), Action::Store(_, 0)));
    assert!(matches!(driver.step(Event::Stored), Action::Lookup(_)));
    // the entry is sorted, and the store holds no shorter program: a solution
    match driver.step(Event::Looked(Some(0))) {
        Action::Emit(program) => assert!(program.is_empty()),
        other => panic!("{:?}", other),
    }
    assert_eq!(driver.solutions(), 1);
    match driver.step(Event::Emitted) {
        Action::Finish(outcome) => assert_eq!(outcome, Outcome::SolutionFound),
        other => panic!("{:?}", other),
    }
}

#[test]
fn a_search_from_a_part_of_the_orderings() {
    let cfg = Config::new(3, 1, 11);
    let catalog = possible_commands(&cfg);
    let part = vec![vec![2u8, 1, 3, 0, 0, 0], vec![1u8, 2, 3, 0, 0, 0]];
    let table = min_instructions(&cfg, &catalog);
    let opts = Options { evaluation: Evaluation::Dijkstra, all_solutions: false, cutoff: true, approximate: false };
    let mut driver = Driver::new(cfg, opts, catalog, &part, table).unwrap();
    let mut store = MemoryStore::new();
    let report = search(&mut driver, &mut store);
    assert_eq!(report.outcome, Outcome::SolutionFound);
    assert_eq!(report.programs[0].len(), 4);
    assert!(program_solves(&cfg, &report.programs[0], &part));
    assert_eq!(report.visited, driver.visited());
    assert_eq!(report.duplicate, driver.duplicate());
    assert_eq!(report.cut, driver.cut());
    assert_eq!(store.get(&vec![1, 2, 3, 0, 0, 0, 2, 1, 3, 0, 0, 0]), Some(0));
}

#[test]
fn the_approximate_mode_visits_less_and_may_overlook_programs() {
    let cfg = Config::new(2, 1, 6);
    let initial = initial_state(&cfg).unwrap();
    let exact = run(&cfg, options(Evaluation::Dijkstra));
    let coarse = run(
        &cfg,
        Options {
            evaluation: Evaluation::Dijkstra,
            all_solutions: false,
            cutoff: false,
            approximate: true,
        },
    );
    // the two rows of the initial joint state have one signature, and so
    // has the sorted joint state: the approximate search takes the goal
    // for visited and runs out, though a program of four instructions sorts
    assert_eq!(exact.outcome, Outcome::SolutionFound);
    assert_eq!(coarse.outcome, Outcome::Exhausted);
    assert!(coarse.programs.is_empty());
    assert!(coarse.visited < exact.visited);
    // with three values it finds a program, and what it finds sorts
    let three = Config::new(3, 1, 11);
    let found = run(
        &three,
        Options {
            evaluation: Evaluation::AStar,
            all_solutions: false,
            cutoff: true,
            approximate: true,
        },
    );
    for program in found.programs.iter() {
        assert!(program.len() <= 11);
        assert!(program_solves(&three, program, &initial_state(&three).unwrap()));
    }
    // the keys are made of signatures
    let opts = Options {
        evaluation: Evaluation::Dijkstra,
        all_solutions: false,
        cutoff: false,
        approximate: true,
    };
    let mut driver = Driver::new(cfg, opts, possible_commands(&cfg), &initial, None).unwrap();
    match driver.step(Event::Start) {
        Action::Store(key, 0) => assert_eq!(key, vec![1, 0, 1, 1, 0, 0]),
        other => panic!("{:?}", other),
    }
    // a register number must fit a byte
    let wide = Config::new(2, 300, 6);
    match Driver::new(wide, opts, Vec::new(), &Vec::new(), None) {
        Err(e) => assert_eq!(e, ConfigError::BadSizes),
        Ok(_) => panic!("accepted"),
    }
    assert!(Driver::new(wide, options(Evaluation::Dijkstra), Vec::new(), &Vec::new(), None).is_ok());
}

#[test]
fn a_search_by_length_finds_a_shortest_program() {
    // every program of up to four instructions, tried one by one, against
    // what the search says
    let cfg = Config::new(2, 1, 4);
    let initial = initial_state(&cfg).unwrap();
    let catalog = possible_commands(&cfg);
    let report = run(&cfg, options(Evaluation::Dijkstra));
    let found = report.programs[0].len();
    let mut program: Vec<Command> = Vec::new();
    let mut shortest: Option<usize> = None;
    fn walk(
        cfg: &Config,
        catalog: &Vec<Command>,
        initial: &Vec<Vec<u8>>,
        program: &mut Vec<Command>,
        shortest: &mut Option<usize>,
    ) {
        if program_solves(cfg, program, initial) {
            if shortest.map_or(true, |s| program.len() < s) {
                *shortest = Some(program.len());
            }
            return;
        }
        if program.len() == 4 {
            return;
        }
        for cmd in catalog.iter() {
            program.push(*cmd);
            walk(cfg, catalog, initial, program, shortest);
            program.pop();
        }
    }
    walk(&cfg, &catalog, &initial, &mut program, &mut shortest);
    assert_eq!(shortest, Some(found));
    assert_eq!(found, 4);
}

#[test]
fn a_search_loses_nothing_that_the_store_held() {
    let cfg = Config::new(2, 1, 6);
    let initial = initial_state(&cfg).unwrap();
    let catalog = possible_commands(&cfg);
    let mut driver =
        Driver::new(cfg, options(Evaluation::Dijkstra), catalog, &initial, None).unwrap();
    let mut store = MemoryStore::new();
    // a key that no joint state has, and the first successors as if reached before
    store.insert(vec![9, 9, 9], 5);
    let moved = run_program(&cfg, &vec![(MOV, 2, 0)], &initial);
    let key: Vec<u8> = moved.iter().flatten().copied().collect();
    store.insert(key.clone(), 3);
    let compared = run_program(&cfg, &vec![(CMP, 0, 1)], &initial);
    let compared_key: Vec<u8> = compared.iter().flatten().copied().collect();
    store.insert(compared_key.clone(), 0);
    let report = search(&mut driver, &mut store);
    assert_eq!(store.get(&vec![9, 9, 9]), Some(5));
    // reached by one instruction: the larger length is replaced
    assert_eq!(store.get(&key), Some(1));
    // the smaller length stays, and the successor counts as a duplicate
    assert_eq!(store.get(&compared_key), Some(0));
    assert!(report.duplicate > 0);
    for program in report.programs.iter() {
        assert!(program_solves(&cfg, program, &initial));
    }
}

/// Runs a search by length for two values and one scratch register against
/// a map, and answers `Some(0)` where a popped entry of length one or more
/// is asked about.
fn run_with_a_store_that_claims_shorter_ways(only_goals: bool) -> (Outcome, Vec<Vec<Command>>, u64) {
    let cfg = Config::new(2, 1, 6);
    let initial = initial_state(&cfg).unwrap();
    let mut driver =
        Driver::new(cfg, options(Evaluation::Dijkstra), possible_commands(&cfg), &initial, None)
            .unwrap();
    let mut store: std::collections::HashMap<Vec<u8>, u8> = std::collections::HashMap::new();
    let mut programs = Vec::new();
    let mut event = Event::Start;
    let mut popped = 0;
    loop {
        match driver.step(event) {
            Action::Lookup(key) => {
                let fresh_pop = driver.visited() != popped;
                popped = driver.visited();
                let goal = key.chunks(5).all(|row| row[0] == 1 && row[1] == 2);
                let known = store.get(&key).copied();
                event = if fresh_pop && known.unwrap_or(0) > 0 && (goal || !only_goals) {
                    Event::Looked(Some(0))
                } else {
                    Event::Looked(known)
                };
            }
            Action::Store(key, length) => {
                store.insert(key, length);
                event = Event::Stored;
            }
            Action::Emit(program) => {
                programs.push(program);
                event = Event::Emitted;
            }
            Action::Finish(outcome) => return (outcome, programs, driver.duplicate()),
        }
    }
}

#[test]
fn a_solution_is_handed_out_whatever_the_store_holds() {
    let cfg = Config::new(2, 1, 6);
    let initial = initial_state(&cfg).unwrap();
    let (outcome, programs, _) = run_with_a_store_that_claims_shorter_ways(true);
    assert_eq!(outcome, Outcome::SolutionFound);
    assert_eq!(programs.len(), 1);
    assert_eq!(programs[0].len(), 4);
    assert!(program_solves(&cfg, &programs[0], &initial));
}

#[test]
fn a_stale_entry_that_is_no_solution_is_dropped_and_counted() {
    // every entry behind the first is taken for stale: nothing but the
    // initial joint state is expanded, and each of its successors is counted
    let (outcome, programs, duplicate) = run_with_a_store_that_claims_shorter_ways(false);
    assert_eq!(outcome, Outcome::Exhausted);
    assert!(programs.is_empty());
    let honest = synthesize(&Config::new(2, 1, 1), options(Evaluation::Dijkstra)).unwrap();
    assert_eq!(honest.outcome, Outcome::Exhausted);
    assert!(duplicate >= honest.visited - 1);
    assert!(duplicate > 0);
}

#[test]
fn a_search_in_memory_is_never_given_up() {
    for (numbers, swaps, max_len) in [(1, 0, 0), (2, 0, 3), (2, 1, 3), (2, 1, 4), (3, 1, 2)] {
        for evaluation in [Evaluation::Dijkstra, Evaluation::AStar, Evaluation::Greedy] {
            for all_solutions in [false, true] {
                let report = synthesize(
                    &Config::new(numbers, swaps, max_len),
                    Options { evaluation, all_solutions, cutoff: true, approximate: false },
                )
                .unwrap();
                assert_ne!(report.outcome, Outcome::Aborted);
                assert_eq!(report.outcome == Outcome::SolutionFound, !report.programs.is_empty());
            }
        }
    }
}
