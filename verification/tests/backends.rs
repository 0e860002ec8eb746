use sortsynth::catalog::possible_commands;
use sortsynth::config::Config;
use sortsynth::driver::{Action, Driver, Evaluation, Event, Options, Outcome};
use sortsynth::initial::initial_state;
use sortsynth::machine::Command;
use sortsynth::search::search;
use sortsynth::store::MemoryStore;

struct Run {
    outcome: Outcome,
    programs: Vec<Vec<Command>>,
    visited: u64,
    duplicate: u64,
    cut: u64,
}

fn fresh(cfg: &Config, options: Options) -> Driver {
    let initial = initial_state(cfg).unwrap();
    Driver::new(*cfg, options, possible_commands(cfg), &initial, None).unwrap()
}

fn run_on_sled(cfg: &Config, options: Options) -> Run {
    let db = sled::Config::new().temporary(true).open().unwrap();
    let mut driver = fresh(cfg, options);
    let mut programs = Vec::new();
    let mut event = Event::Start;
    loop {
        match driver.step(event) {
            Action::Lookup(key) => {
                event = match db.get(&key) {
                    Ok(found) => Event::Looked(found.map(|v| v[0])),
                    Err(_) => Event::Failed,
                };
            }
            Action::Store(key, length) => {
                event = match db.insert(key, vec![length]) {
                    Ok(_) => Event::Stored,
                    Err(_) => Event::Failed,
                };
            }
            Action::Emit(program) => {
                programs.push(program);
                event = Event::Emitted;
            }
            Action::Finish(outcome) => {
                return Run {
                    outcome,
                    programs,
                    visited: driver.visited(),
                    duplicate: driver.duplicate(),
                    cut: driver.cut(),
                };
            }
        }
    }
}

fn run_in_memory(cfg: &Config, options: Options) -> Run {
    let mut driver = fresh(cfg, options);
    let mut store = MemoryStore::new();
    let report = search(&mut driver, &mut store);
    Run {
        outcome: report.outcome,
        programs: report.programs,
        visited: report.visited,
        duplicate: report.duplicate,
        cut: report.cut,
    }
}

fn same(cfg: &Config, options: Options) {
    let a = run_in_memory(cfg, options);
    let b = run_on_sled(cfg, options);
    assert_eq!(a.outcome, b.outcome);
    assert_eq!(a.programs.len(), b.programs.len());
    for (p, q) in a.programs.iter().zip(b.programs.iter()) {
        assert_eq!(p.len(), q.len());
    }
    assert_eq!(a.visited, b.visited);
    assert_eq!(a.duplicate, b.duplicate);
    assert_eq!(a.cut, b.cut);
}

#[test]
fn store_in_memory_and_store_on_disk_give_the_same_search() {
    let cfg = Config::new(2, 1, 6);
    for evaluation in [Evaluation::Dijkstra, Evaluation::AStar, Evaluation::Greedy] {
        for all_solutions in [false, true] {
            same(&cfg, Options { evaluation, all_solutions, cutoff: false, approximate: false });
        }
    }
}

#[test]
fn both_stores_exhaust_alike() {
    let cfg = Config::new(2, 1, 3);
    same(&cfg, Options { evaluation: Evaluation::Dijkstra, all_solutions: false, cutoff: false, approximate: false });
    let cfg = Config::new(3, 1, 4);
    same(&cfg, Options { evaluation: Evaluation::AStar, all_solutions: false, cutoff: false, approximate: false });
}
