use sortsynth::config::Config;
use sortsynth::machine::{apply, apply_all, CMOVG, CMOVL, CMP, MAX, MIN, MOV, MOVD, MOVDQA};

#[test]
fn compare_sets_both_flags() {
    let cfg = Config::new(3, 1, 11);
    let mut row = vec![2u8, 1, 3, 0, 0, 0];
    apply(&cfg, &(CMP, 0, 1), &mut row);
    assert_eq!(row, vec![2, 1, 3, 0, 0, 1]);
    apply(&cfg, &(CMP, 1, 0), &mut row);
    assert_eq!(row, vec![2, 1, 3, 0, 1, 0]);
    apply(&cfg, &(CMP, 1, 1), &mut row);
    assert_eq!(row, vec![2, 1, 3, 0, 0, 0]);
}

#[test]
fn moves_copy_and_conditional_moves_obey_flags() {
    let cfg = Config::new(3, 1, 11);
    let mut row = vec![2u8, 1, 3, 0, 0, 1];
    apply(&cfg, &(MOV, 3, 0), &mut row);
    assert_eq!(row, vec![2, 1, 3, 2, 0, 1]);
    apply(&cfg, &(CMOVL, 0, 1), &mut row);
    assert_eq!(row, vec![2, 1, 3, 2, 0, 1]);
    apply(&cfg, &(CMOVG, 0, 1), &mut row);
    assert_eq!(row, vec![1, 1, 3, 2, 0, 1]);
    apply(&cfg, &(CMOVG, 1, 3), &mut row);
    assert_eq!(row, vec![1, 2, 3, 2, 0, 1]);
}

#[test]
fn lane_instructions() {
    let cfg = Config::with_lanes(2, 0, 5).unwrap();
    assert_eq!(cfg.lanes, 2);
    let mut row = vec![2u8, 1, 0, 0, 2, 1];
    apply(&cfg, &(MIN, 4, 5), &mut row);
    assert_eq!(row, vec![2, 1, 0, 0, 1, 1]);
    apply(&cfg, &(MOVD, 5, 0), &mut row);
    assert_eq!(row, vec![2, 1, 0, 0, 1, 2]);
    apply(&cfg, &(MAX, 4, 5), &mut row);
    assert_eq!(row, vec![2, 1, 0, 0, 2, 2]);
    apply(&cfg, &(MOVDQA, 5, 4), &mut row);
    assert_eq!(row, vec![2, 1, 0, 0, 2, 2]);
    apply(&cfg, &(MOVD, 0, 4), &mut row);
    assert_eq!(row, vec![2, 1, 0, 0, 2, 2]);
}

#[test]
fn apply_all_sorts_and_merges() {
    let cfg = Config::new(2, 1, 5);
    let state = vec![vec![1u8, 2, 0, 0, 0], vec![2, 1, 0, 0, 0]];
    let next = apply_all(&cfg, &(MOV, 0, 2), &state);
    assert_eq!(next, vec![vec![0u8, 1, 0, 0, 0], vec![0, 2, 0, 0, 0]]);
    let merged = apply_all(&cfg, &(MOV, 1, 0), &next);
    assert_eq!(merged, vec![vec![0u8, 0, 0, 0, 0]]);
}
