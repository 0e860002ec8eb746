use sortsynth::config::Config;
use sortsynth::viability::{has_rank, is_goal, is_sorted_perm, viable, viable_perm};

#[test]
fn a_row_that_lost_a_rank_is_not_viable() {
    let cfg = Config::new(3, 1, 11);
    assert!(viable_perm(&cfg, &vec![2, 1, 3, 0, 0, 0]));
    assert!(viable_perm(&cfg, &vec![2, 2, 3, 1, 1, 1]));
    assert!(viable_perm(&cfg, &vec![0, 1, 2, 3, 0, 0]));
    // rank 1 is nowhere
    assert!(!viable_perm(&cfg, &vec![2, 2, 3, 0, 0, 0]));
    // rank 3 stands in a flag slot only
    assert!(!viable_perm(&cfg, &vec![2, 1, 1, 0, 3, 0]));
    assert!(has_rank(&cfg, &vec![2, 1, 3, 0, 0, 0], 3));
    assert!(!has_rank(&cfg, &vec![2, 1, 3, 0, 0, 0], 4));
    assert!(has_rank(&cfg, &vec![2, 1, 3, 0, 0, 0], 0));
}

#[test]
fn a_state_with_a_row_that_lost_a_rank_is_cut_for_every_size() {
    for n in 1..6usize {
        for s in 0..3usize {
            let cfg = Config::new(n, s, 10);
            let width = cfg.width();
            let mut sorted = vec![0u8; width];
            for i in 0..n {
                sorted[i] = (i + 1) as u8;
            }
            assert!(viable(&cfg, &vec![sorted.clone()]));
            for lost in 0..n {
                let mut broken = sorted.clone();
                broken[lost] = 0;
                assert!(!viable(&cfg, &vec![sorted.clone(), broken.clone()]));
                assert!(!viable(&cfg, &vec![broken, sorted.clone()]));
            }
        }
    }
    let cfg = Config::new(2, 0, 4);
    assert!(viable(&cfg, &Vec::new()));
}

#[test]
fn goal_is_recognised_in_any_order_of_rows() {
    let cfg = Config::new(3, 1, 11);
    let a = vec![1u8, 2, 3, 0, 0, 1];
    let b = vec![1u8, 2, 3, 2, 1, 0];
    let c = vec![1u8, 2, 3, 3, 0, 0];
    assert!(is_goal(&cfg, &vec![a.clone(), b.clone(), c.clone()]));
    assert!(is_goal(&cfg, &vec![c.clone(), a.clone(), b.clone()]));
    assert!(is_goal(&cfg, &vec![b.clone(), c.clone(), a.clone(), a.clone()]));
    let d = vec![1u8, 3, 2, 0, 0, 0];
    assert!(!is_goal(&cfg, &vec![a.clone(), d.clone()]));
    assert!(!is_goal(&cfg, &vec![d.clone(), a.clone()]));
    // all rows alike, but not sorted
    assert!(!is_goal(&cfg, &vec![d.clone(), d.clone()]));
    assert!(is_sorted_perm(&cfg, &a));
    assert!(!is_sorted_perm(&cfg, &d));
    assert!(!is_sorted_perm(&cfg, &vec![1, 2, 0, 3, 0, 0]));
}
