use sortsynth::catalog::possible_commands;
use sortsynth::config::Config;
use sortsynth::generation::{search_by_generations, successors, Generations, Verdict};
use sortsynth::initial::initial_state;
use sortsynth::machine::{CMOVG, CMP, MOV};
use sortsynth::program::program_solves;
use sortsynth::random::{random_program, random_search};
use sortsynth::store::MemoryStore;

#[test]
fn successors_of_the_initial_state() {
    let cfg = Config::new(2, 1, 5);
    let catalog = possible_commands(&cfg);
    let initial = initial_state(&cfg).unwrap();
    let out = successors(&cfg, &catalog, 7, &initial);
    // moves into the scratch register, conditional moves (no flag is set), comparisons
    let made: Vec<usize> = out.iter().map(|c| c.cmd).collect();
    assert_eq!(made, vec![4, 5, 6, 7, 8, 9, 10, 11, 12, 13, 14, 15, 16, 17, 18, 19, 20]);
    assert!(out.iter().all(|c| c.parent == 7));
    assert_eq!(catalog[4], (MOV, 2, 0));
    assert_eq!(out[0].state, vec![vec![1u8, 2, 1, 0, 0], vec![2u8, 1, 2, 0, 0]]);
    assert_eq!(catalog[18], (CMP, 0, 1));
    assert_eq!(out[14].state, vec![vec![1u8, 2, 0, 1, 0], vec![2u8, 1, 0, 0, 1]]);
    assert_eq!(catalog[6], (CMOVG, 0, 1));
    assert_eq!(out[2].state, initial);
}

#[test]
fn generations_find_the_shortest_program() {
    let cfg = Config::new(2, 1, 6);
    let initial = initial_state(&cfg).unwrap();
    let mut search = Generations::new(cfg, possible_commands(&cfg), &initial).unwrap();
    let mut store = MemoryStore::new();
    let program = search_by_generations(&mut search, &mut store).unwrap();
    assert_eq!(program.len(), 4);
    assert_eq!(search.length(), 4);
    assert!(program_solves(&cfg, &program, &initial));
    assert!(search.visited() > 0);
    assert!(search.duplicate() > 0);
}

#[test]
fn generations_step_by_step() {
    let cfg = Config::new(2, 1, 6);
    let initial = initial_state(&cfg).unwrap();
    let mut search = Generations::new(cfg, possible_commands(&cfg), &initial).unwrap();
    let mut store = MemoryStore::new();
    assert_eq!(search.len(), 1);
    assert_eq!(search.state(0), &initial);
    assert!(search.solution().is_none());
    let candidates = search.expand();
    assert_eq!(candidates.len(), 17);
    search.merge(&mut store, candidates);
    assert_eq!(search.length(), 1);
    assert_eq!(search.visited(), 1);
    // conditional moves without a flag change nothing: twelve successors are
    // the initial state again, which is new to the store only once, and both
    // comparisons with the empty scratch register come to the same state
    assert_eq!(search.len() as u64 + search.duplicate(), 17);
    assert_eq!(search.len(), 5);
    assert_eq!(store.get(&vec![1, 2, 1, 0, 0, 2, 1, 2, 0, 0]), Some(1));
}

#[test]
fn generations_run_out_at_the_longest_length() {
    let cfg = Config::new(2, 1, 3);
    let initial = initial_state(&cfg).unwrap();
    let mut search = Generations::new(cfg, possible_commands(&cfg), &initial).unwrap();
    let mut store = MemoryStore::new();
    assert_eq!(search_by_generations(&mut search, &mut store), None);
    assert_eq!(search.length(), 3);
}

#[test]
fn random_programs_come_from_the_catalog() {
    let cfg = Config::new(3, 1, 11);
    let catalog = possible_commands(&cfg);
    for length in [0u8, 1, 11, 200] {
        let program = random_program(&catalog, length);
        assert_eq!(program.len(), length as usize);
        assert!(program.iter().all(|cmd| catalog.contains(cmd)));
    }
    let one = vec![(CMOVG, 1, 2)];
    assert_eq!(random_program(&one, 3), vec![(CMOVG, 1, 2), (CMOVG, 1, 2), (CMOVG, 1, 2)]);
    // chance does not hand the catalog back in its order
    let drawn = random_program(&catalog, 42);
    let again = random_program(&catalog, 42);
    assert!(drawn != catalog || again != catalog);
}

#[test]
fn random_search_finds_what_is_easy_to_find() {
    let cfg = Config::new(1, 1, 3);
    let catalog = possible_commands(&cfg);
    let initial = initial_state(&cfg).unwrap();
    // every program that does not overwrite the value sorts
    let found = random_search(&cfg, &catalog, &initial, 1000).unwrap();
    assert_eq!(found.len(), 3);
    assert!(program_solves(&cfg, &found, &initial));
    assert_eq!(random_search(&cfg, &catalog, &initial, 0), None);
    assert_eq!(random_search(&cfg, &Vec::new(), &initial, 10), None);
    // two values cannot be sorted without a scratch register
    let hard = Config::new(2, 0, 4);
    let initial = initial_state(&hard).unwrap();
    assert_eq!(random_search(&hard, &possible_commands(&hard), &initial, 200), None);
}

#[test]
fn a_seeded_search_takes_the_initial_state_for_visited() {
    let cfg = Config::new(2, 1, 6);
    let initial = initial_state(&cfg).unwrap();
    let mut search = Generations::new(cfg, possible_commands(&cfg), &initial).unwrap();
    let mut store = MemoryStore::new();
    search.seed(&mut store);
    assert_eq!(store.get(&vec![1, 2, 0, 0, 0, 2, 1, 0, 0, 0]), Some(0));
    // seeding twice changes nothing
    search.seed(&mut store);
    assert_eq!(store.get(&vec![1, 2, 0, 0, 0, 2, 1, 0, 0, 0]), Some(0));
    let candidates = search.expand();
    search.merge(&mut store, candidates);
    // the twelve successors that are the initial state again are duplicates
    assert_eq!(search.len(), 4);
    assert_eq!(search.duplicate(), 13);
    assert_eq!(store.get(&vec![1, 2, 0, 0, 0, 2, 1, 0, 0, 0]), Some(0));
}

#[test]
fn generations_and_best_first_search_agree_on_the_length() {
    for (n, s, l) in [(1usize, 0usize, 3u8), (2, 1, 6), (2, 2, 5), (2, 1, 3), (2, 0, 4)] {
        let cfg = Config::new(n, s, l);
        let initial = initial_state(&cfg).unwrap();
        let mut search = Generations::new(cfg, possible_commands(&cfg), &initial).unwrap();
        let mut store = MemoryStore::new();
        let by_generations = search_by_generations(&mut search, &mut store).map(|p| p.len());
        let report = sortsynth::search::synthesize(
            &cfg,
            sortsynth::driver::Options {
                evaluation: sortsynth::driver::Evaluation::Dijkstra,
                all_solutions: false,
                cutoff: false,
                approximate: false,
            },
        )
        .unwrap();
        assert_eq!(by_generations, report.programs.first().map(|p| p.len()));
    }
}

#[test]
fn random_search_finds_at_the_first_try_where_every_program_sorts() {
    // the empty program is the only one of length 0, and one value is sorted
    let cfg = Config::new(1, 1, 0);
    let catalog = possible_commands(&cfg);
    let initial = initial_state(&cfg).unwrap();
    assert_eq!(random_search(&cfg, &catalog, &initial, 1), Some(vec![]));
    // comparing changes no register: every program of comparisons sorts
    let cfg = Config::new(1, 1, 5);
    let compare = vec![(CMP, 0, 1)];
    let initial = initial_state(&cfg).unwrap();
    assert_eq!(random_search(&cfg, &compare, &initial, 1), Some(vec![(CMP, 0, 1); 5]));
    // moving the empty register over the value sorts never
    let spoil = vec![(MOV, 0, 1)];
    assert_eq!(random_search(&cfg, &spoil, &initial, 50), None);
}

#[test]
fn the_verdict_on_a_generation() {
    // one value is sorted from the start
    let cfg = Config::new(1, 1, 2);
    let initial = initial_state(&cfg).unwrap();
    let search = Generations::new(cfg, possible_commands(&cfg), &initial).unwrap();
    assert!(matches!(search.verdict(), Verdict::Found(program) if program.is_empty()));
    // two values are not, and are not to be sorted without a scratch register
    let cfg = Config::new(2, 0, 1);
    let initial = initial_state(&cfg).unwrap();
    let catalog = possible_commands(&cfg);
    let mut search = Generations::new(cfg, catalog, &initial).unwrap();
    let mut store = MemoryStore::new();
    search.seed(&mut store);
    assert!(matches!(search.verdict(), Verdict::Expand));
    let candidates = search.expand();
    search.merge(&mut store, candidates);
    assert_eq!(search.length(), 1);
    assert!(matches!(search.verdict(), Verdict::RunOut));
    // with nothing to expand the search has run out at once
    let cfg = Config::new(2, 0, 0);
    let search = Generations::new(cfg, possible_commands(&cfg), &initial).unwrap();
    assert!(matches!(search.verdict(), Verdict::RunOut));
}
