use sortsynth::catalog::possible_commands;
use sortsynth::config::Config;
use sortsynth::driver::{score, Evaluation};
use sortsynth::heuristic::{over_budget, pattern_count, rank_patterns};
use sortsynth::inverse::apply_invers;
use sortsynth::machine::{CMOVG, CMOVL, CMP, MOV};
use sortsynth::store::MemoryStore;
use sortsynth::tables::min_instructions;

#[test]
fn pattern_count_counts_different_prefixes() {
    let cfg = Config::new(2, 1, 6);
    let state = vec![
        vec![1u8, 2, 0, 0, 0],
        vec![1u8, 2, 1, 0, 1],
        vec![2u8, 1, 0, 0, 0],
        vec![2u8, 1, 2, 1, 0],
        vec![2u8, 2, 1, 1, 0],
    ];
    assert_eq!(
        rank_patterns(&cfg, &state),
        vec![vec![1, 2], vec![1, 2], vec![2, 1], vec![2, 1], vec![2, 2]]
    );
    assert_eq!(pattern_count(&cfg, &state), 3);
    assert_eq!(pattern_count(&cfg, &vec![vec![1u8, 2, 0, 0, 0], vec![1u8, 2, 1, 0, 0]]), 1);
    assert_eq!(pattern_count(&cfg, &Vec::new()), 0);
}

#[test]
fn score_by_evaluation() {
    let cfg = Config::new(2, 1, 6);
    let state = vec![vec![1u8, 2, 0, 0, 0], vec![2u8, 1, 0, 0, 0], vec![2u8, 1, 1, 0, 0]];
    assert_eq!(score(&cfg, Evaluation::Dijkstra, &state, 5), 5);
    assert_eq!(score(&cfg, Evaluation::AStar, &state, 5), 7);
    assert_eq!(score(&cfg, Evaluation::Greedy, &state, 5), 2);
}

#[test]
fn apply_invers_hands_out_the_origins() {
    let cfg = Config::new(2, 1, 6);
    // the flags fit the comparison: they may have been anything before
    assert_eq!(
        apply_invers(&cfg, &(CMP, 0, 1), &vec![1, 2, 0, 1, 0]),
        vec![
            vec![1u8, 2, 0, 0, 0],
            vec![1u8, 2, 0, 0, 1],
            vec![1u8, 2, 0, 1, 0],
            vec![1u8, 2, 0, 1, 1]
        ]
    );
    // the flags do not fit
    assert_eq!(apply_invers(&cfg, &(CMP, 0, 1), &vec![1, 2, 0, 0, 1]), Vec::<Vec<u8>>::new());
    assert_eq!(apply_invers(&cfg, &(CMP, 0, 1), &vec![1, 2, 0, 0, 0]), Vec::<Vec<u8>>::new());
    assert_eq!(apply_invers(&cfg, &(CMP, 0, 1), &vec![1, 1, 0, 0, 0]).len(), 4);
    // a move: the destination may have held anything
    assert_eq!(
        apply_invers(&cfg, &(MOV, 2, 0), &vec![1, 2, 1, 0, 0]),
        vec![vec![1u8, 2, 0, 0, 0], vec![1u8, 2, 1, 0, 0], vec![1u8, 2, 2, 0, 0]]
    );
    assert_eq!(apply_invers(&cfg, &(MOV, 2, 0), &vec![1, 2, 2, 0, 0]), Vec::<Vec<u8>>::new());
    // a conditional move whose flag is clear did nothing
    assert_eq!(
        apply_invers(&cfg, &(CMOVG, 2, 0), &vec![1, 2, 2, 1, 0]),
        vec![vec![1u8, 2, 2, 1, 0]]
    );
    assert_eq!(apply_invers(&cfg, &(CMOVG, 2, 0), &vec![1, 2, 1, 0, 1]).len(), 3);
    assert_eq!(apply_invers(&cfg, &(CMOVG, 2, 0), &vec![1, 2, 2, 0, 1]).len(), 0);
    assert_eq!(apply_invers(&cfg, &(CMOVL, 2, 0), &vec![1, 2, 1, 1, 0]).len(), 3);
    assert_eq!(
        apply_invers(&cfg, &(CMOVL, 2, 0), &vec![1, 2, 2, 0, 1]),
        vec![vec![1u8, 2, 2, 0, 1]]
    );
}

#[test]
fn table_of_lower_bounds_for_two_values() {
    let cfg = Config::new(2, 1, 6);
    let catalog = possible_commands(&cfg);
    let table = min_instructions(&cfg, &catalog).unwrap();
    // sorted rows need nothing, whatever the scratch register and the flags hold
    assert_eq!(table.get(&vec![1, 2, 0, 0, 0]), Some(0));
    assert_eq!(table.get(&vec![1, 2, 2, 1, 1]), Some(0));
    // one move
    assert_eq!(table.get(&vec![1, 1, 2, 0, 0]), Some(1));
    assert_eq!(table.get(&vec![2, 2, 1, 0, 0]), Some(1));
    // two moves
    assert_eq!(table.get(&vec![2, 1, 1, 0, 0]), Some(2));
    assert_eq!(table.get(&vec![2, 1, 2, 0, 0]), Some(2));
    // a swap through the scratch register
    assert_eq!(table.get(&vec![2, 1, 0, 0, 0]), Some(3));
    assert_eq!(table.get(&vec![2, 1, 0, 1, 1]), Some(3));
    // a rank is lost
    assert_eq!(table.get(&vec![1, 1, 0, 0, 0]), None);
    assert_eq!(table.get(&vec![2, 2, 2, 0, 0]), None);
    assert_eq!(table.get(&vec![0, 0, 0, 0, 0]), None);
    // no register file of the machine
    assert_eq!(table.get(&vec![1, 2, 3, 0, 0]), None);
    assert_eq!(table.get(&vec![1, 2, 0, 0]), None);
}

#[test]
fn table_does_not_depend_on_the_longest_program_allowed() {
    let long = Config::new(2, 1, 6);
    let full = min_instructions(&long, &possible_commands(&long)).unwrap();
    for max_len in [0u8, 2, 255] {
        let cfg = Config::new(2, 1, max_len);
        let table = min_instructions(&cfg, &possible_commands(&cfg)).unwrap();
        for a in 0..=2u8 {
            for b in 0..=2u8 {
                for c in 0..=2u8 {
                    for flags in [[0u8, 0], [0, 1], [1, 0], [1, 1]] {
                        let row = vec![a, b, c, flags[0], flags[1]];
                        assert_eq!(table.get(&row), full.get(&row), "{:?}", row);
                    }
                }
            }
        }
        assert_eq!(table.get(&vec![2, 1, 0, 0, 0]), Some(3));
    }
}

#[test]
fn table_is_closed_under_running_backwards() {
    // the origin of a sorted row under a move has an entry, whatever the
    // longest program allowed
    let cfg = Config::new(3, 1, 0);
    let catalog = possible_commands(&cfg);
    let table = min_instructions(&cfg, &catalog).unwrap();
    assert_eq!(table.get(&vec![1, 2, 3, 1, 0, 0]), Some(0));
    assert!(apply_invers(&cfg, &(MOV, 0, 3), &vec![1, 2, 3, 1, 0, 0]).contains(&vec![0, 2, 3, 1, 0, 0]));
    assert_eq!(table.get(&vec![0, 2, 3, 1, 0, 0]), Some(1));
    // and so for every row of the table and every instruction
    let mut rows = 0;
    let mut longest = 0;
    for code in 0..(4u32.pow(4) * 4) {
        let row: Vec<u8> = vec![
            (code % 4) as u8,
            (code / 4 % 4) as u8,
            (code / 16 % 4) as u8,
            (code / 64 % 4) as u8,
            (code / 256 % 2) as u8,
            (code / 512 % 2) as u8,
        ];
        let Some(length) = table.get(&row) else { continue };
        rows += 1;
        longest = longest.max(length);
        for cmd in catalog.iter() {
            if cmd.0 != CMP && cmd.1 == cmd.2 {
                continue;
            }
            for origin in apply_invers(&cfg, cmd, &row) {
                let before = table.get(&origin);
                assert!(before.is_some() && before.unwrap() <= length + 1, "{:?} {:?}", cmd, origin);
            }
        }
    }
    assert!(rows > 100);
    assert!(longest < 255);
}

#[test]
fn table_without_scratch_registers() {
    let cfg = Config::new(2, 0, 6);
    let table = min_instructions(&cfg, &possible_commands(&cfg)).unwrap();
    assert_eq!(table.get(&vec![1, 2, 1, 0]), Some(0));
    // two registers cannot be swapped
    assert_eq!(table.get(&vec![2, 1, 0, 0]), None);
}

#[test]
fn no_table_for_machines_out_of_range() {
    let lanes = Config::with_lanes(2, 1, 6).unwrap();
    assert!(min_instructions(&lanes, &possible_commands(&lanes)).is_none());
    let cfg = Config::new(2, 1, 6);
    assert!(min_instructions(&cfg, &vec![(MOV, 0, 7)]).is_none());
    assert!(min_instructions(&Config::new(0, 1, 6), &Vec::new()).is_none());
    assert!(min_instructions(&Config::new(2, 5, 6), &Vec::new()).is_none());
    assert!(min_instructions(&Config::new(11, 0, 6), &Vec::new()).is_none());
    // an empty catalog sorts nothing that is not sorted
    let table = min_instructions(&cfg, &Vec::new()).unwrap();
    assert_eq!(table.get(&vec![1, 2, 0, 0, 0]), Some(0));
    assert_eq!(table.get(&vec![1, 1, 2, 0, 0]), None);
    // moves of a register onto itself change nothing
    let idle = vec![(MOV, 0, 0), (CMOVL, 1, 1), (CMOVG, 2, 2), (CMP, 0, 0)];
    let table = min_instructions(&cfg, &idle).unwrap();
    assert_eq!(table.get(&vec![1, 2, 0, 0, 0]), Some(0));
    assert_eq!(table.get(&vec![1, 1, 2, 0, 0]), None);
    assert_eq!(table.get(&vec![2, 2, 0, 0, 0]), None);
}

#[test]
fn hard_cutoff() {
    let cfg = Config::new(2, 1, 6);
    let table = min_instructions(&cfg, &possible_commands(&cfg)).unwrap();
    let state = vec![vec![1u8, 2, 0, 0, 0], vec![2u8, 1, 0, 0, 0]];
    // the second row needs three instructions more
    assert!(!over_budget(&table, &state, 3, 6));
    assert!(over_budget(&table, &state, 4, 6));
    assert!(!over_budget(&table, &state, 0, 3));
    assert!(over_budget(&table, &state, 0, 2));
    // a row that cannot be sorted at all
    let lost = vec![vec![1u8, 2, 0, 0, 0], vec![1u8, 1, 0, 0, 0]];
    assert!(over_budget(&table, &lost, 0, 6));
    assert!(!over_budget(&table, &Vec::new(), 6, 6));
    let empty = MemoryStore::new();
    assert!(over_budget(&empty, &state, 0, 6));
}

#[test]
fn swap_distances_of_three_values() {
    let table = sortsynth::swaps::swap_distances(3).unwrap();
    assert_eq!(table.get(&vec![1, 2, 3]), Some(0));
    assert_eq!(table.get(&vec![2, 1, 3]), Some(1));
    assert_eq!(table.get(&vec![1, 3, 2]), Some(1));
    assert_eq!(table.get(&vec![3, 2, 1]), Some(1));
    assert_eq!(table.get(&vec![2, 3, 1]), Some(2));
    assert_eq!(table.get(&vec![3, 1, 2]), Some(2));
    // no orderings
    assert_eq!(table.get(&vec![1, 1, 2]), None);
    assert_eq!(table.get(&vec![1, 2]), None);
    assert_eq!(table.get(&vec![1, 2, 3, 4]), None);
}

#[test]
fn swap_distances_of_four_values() {
    let table = sortsynth::swaps::swap_distances(4).unwrap();
    let mut seen = 0;
    let mut most = 0;
    for a in 1..5u8 {
        for b in 1..5u8 {
            for c in 1..5u8 {
                for d in 1..5u8 {
                    if let Some(n) = table.get(&vec![a, b, c, d]) {
                        seen += 1;
                        most = most.max(n);
                    }
                }
            }
        }
    }
    // every ordering has an entry, and none needs more than three exchanges
    assert_eq!(seen, 24);
    assert_eq!(most, 3);
    assert_eq!(table.get(&vec![2, 1, 4, 3]), Some(2));
    assert_eq!(table.get(&vec![2, 3, 4, 1]), Some(3));
    assert_eq!(table.get(&vec![4, 3, 2, 1]), Some(2));
    assert_eq!(table.get(&vec![4, 2, 3, 1]), Some(1));
}

#[test]
fn swap_places_exchanges_two_values() {
    assert_eq!(sortsynth::swaps::swap_places(&vec![1, 2, 3, 4], 0, 3), vec![4, 2, 3, 1]);
    assert_eq!(sortsynth::swaps::swap_places(&vec![1, 2, 3, 4], 2, 1), vec![1, 3, 2, 4]);
    assert_eq!(sortsynth::swaps::swap_places(&vec![1, 2, 3, 4], 2, 2), vec![1, 2, 3, 4]);
}

#[test]
fn no_swap_table_out_of_range() {
    assert!(sortsynth::swaps::swap_distances(0).is_none());
    assert!(sortsynth::swaps::swap_distances(11).is_none());
    let one = sortsynth::swaps::swap_distances(1).unwrap();
    assert_eq!(one.get(&vec![1]), Some(0));
}
