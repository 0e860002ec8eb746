use sortsynth::canon::{canonical_key, normalize, state_positions};
use sortsynth::config::Config;
use sortsynth::hashing::{perm_hash, state_hash};
use sortsynth::order::{compare_rows, insert_sorted, RowOrder};
use sortsynth::signature::{encode_signature, insert_list, perm_positions, renaming_key};

#[test]
fn rows_compare_lexicographically() {
    assert_eq!(compare_rows(&vec![1, 2, 3], &vec![1, 2, 3]), RowOrder::Equal);
    assert_eq!(compare_rows(&vec![1, 2, 3], &vec![1, 3, 0]), RowOrder::Less);
    assert_eq!(compare_rows(&vec![2, 0, 0], &vec![1, 9, 9]), RowOrder::Greater);
    assert_eq!(compare_rows(&vec![1, 2], &vec![1, 2, 0]), RowOrder::Less);
    assert_eq!(compare_rows(&vec![1, 2, 0], &vec![1, 2]), RowOrder::Greater);
    assert_eq!(compare_rows(&vec![], &vec![]), RowOrder::Equal);
    assert_eq!(compare_rows(&vec![], &vec![0]), RowOrder::Less);
}

#[test]
fn insert_sorted_keeps_order_and_drops_repeats() {
    let mut state: Vec<Vec<u8>> = Vec::new();
    insert_sorted(&mut state, vec![2, 1]);
    insert_sorted(&mut state, vec![1, 2]);
    insert_sorted(&mut state, vec![3, 0]);
    insert_sorted(&mut state, vec![2, 0]);
    insert_sorted(&mut state, vec![2, 1]);
    insert_sorted(&mut state, vec![1, 2]);
    assert_eq!(state, vec![vec![1, 2], vec![2, 0], vec![2, 1], vec![3, 0]]);
}

#[test]
fn canonical_key_does_not_depend_on_the_order_of_rows() {
    let a = vec![3u8, 1, 2, 0, 1, 0];
    let b = vec![1u8, 2, 3, 0, 0, 1];
    let c = vec![2u8, 1, 3, 3, 0, 0];
    let expected: Vec<u8> = vec![1, 2, 3, 0, 0, 1, 2, 1, 3, 3, 0, 0, 3, 1, 2, 0, 1, 0];
    let orders = [
        vec![a.clone(), b.clone(), c.clone()],
        vec![a.clone(), c.clone(), b.clone()],
        vec![b.clone(), a.clone(), c.clone()],
        vec![b.clone(), c.clone(), a.clone()],
        vec![c.clone(), a.clone(), b.clone()],
        vec![c.clone(), b.clone(), a.clone()],
    ];
    for state in orders.iter() {
        assert_eq!(canonical_key(state), expected);
    }
    // a joint state is a set: a row given twice counts once
    assert_eq!(canonical_key(&vec![c.clone(), a.clone(), c.clone(), b.clone(), a.clone()]), expected);
    assert_eq!(canonical_key(&Vec::new()), Vec::<u8>::new());
    assert_eq!(normalize(&vec![c.clone(), a.clone(), c.clone(), b.clone()]), vec![b, c, a]);
}

#[test]
fn state_positions_writes_rows_as_they_stand() {
    let state = vec![vec![2u8, 1, 0], vec![1u8, 2, 9]];
    assert_eq!(state_positions(&state), vec![2, 1, 0, 1, 2, 9]);
    assert_eq!(state_positions(&Vec::new()), Vec::<u8>::new());
    assert_ne!(state_positions(&state), canonical_key(&state));
}

#[test]
fn perm_positions_lists_registers_by_rank() {
    let cfg = Config::new(3, 1, 11);
    let info = perm_positions(&cfg, &vec![0, 2, 1, 1, 0, 1]);
    assert_eq!(info.perm, vec![vec![], vec![1], vec![2, 3]]);
    assert_eq!(info.flags, vec![false, true]);
    let info = perm_positions(&cfg, &vec![3, 1, 2, 0, 1, 0]);
    assert_eq!(info.perm, vec![vec![0], vec![1], vec![2]]);
    assert_eq!(info.flags, vec![true, false]);
    let lost = perm_positions(&cfg, &vec![2, 2, 2, 2, 0, 0]);
    assert_eq!(lost.perm, vec![vec![], vec![], vec![0, 1, 2, 3]]);
}

#[test]
fn signature_forgets_which_rank_stands_where() {
    let cfg = Config::new(3, 1, 11);
    // the ranks 1 and 3 change places
    let one = perm_positions(&cfg, &vec![1, 2, 3, 1, 0, 1]);
    let other = perm_positions(&cfg, &vec![3, 2, 1, 3, 0, 1]);
    assert_eq!(one.perm, other.perm);
    assert_eq!(one.perm, vec![vec![0, 3], vec![1], vec![2]]);
    assert_eq!(
        encode_signature(&cfg, &vec![1, 2, 3, 1, 0, 1]),
        vec![2, 0, 3, 1, 1, 1, 2, 0, 1]
    );
    assert_eq!(
        encode_signature(&cfg, &vec![1, 2, 3, 1, 0, 1]),
        encode_signature(&cfg, &vec![3, 2, 1, 3, 0, 1])
    );
    assert_ne!(
        encode_signature(&cfg, &vec![1, 2, 3, 1, 0, 1]),
        encode_signature(&cfg, &vec![1, 2, 3, 1, 1, 0])
    );
}

#[test]
fn renaming_key_is_coarser_than_the_canonical_key() {
    let cfg = Config::new(2, 1, 6);
    let one = vec![vec![1u8, 2, 0, 0, 0], vec![2u8, 1, 1, 0, 0]];
    let other = vec![vec![1u8, 2, 2, 0, 0], vec![2u8, 1, 0, 0, 0]];
    assert_ne!(canonical_key(&one), canonical_key(&other));
    assert_eq!(renaming_key(&cfg, &one), renaming_key(&cfg, &other));
    assert_eq!(renaming_key(&cfg, &one), vec![1, 0, 1, 1, 0, 0, 1, 0, 2, 1, 2, 0, 0]);
    let third = vec![vec![1u8, 2, 0, 0, 0], vec![2u8, 1, 1, 1, 0]];
    assert_ne!(renaming_key(&cfg, &one), renaming_key(&cfg, &third));
}

#[test]
fn insert_list_keeps_equal_lists() {
    let mut lists: Vec<Vec<u8>> = Vec::new();
    insert_list(&mut lists, vec![1]);
    insert_list(&mut lists, vec![]);
    insert_list(&mut lists, vec![0, 2]);
    insert_list(&mut lists, vec![]);
    insert_list(&mut lists, vec![1]);
    assert_eq!(lists, vec![vec![], vec![], vec![0, 2], vec![1], vec![1]]);
}

#[test]
fn perm_hash_packs_two_bits_for_each_register() {
    let cfg = Config::new(3, 1, 11);
    assert_eq!(perm_hash(&cfg, &vec![2, 1, 3, 0, 0, 1]), 2 + (1 << 2) + (3 << 4) + (1 << 9));
    assert_eq!(perm_hash(&cfg, &vec![0, 0, 0, 0, 0, 0]), 0);
    assert_eq!(perm_hash(&cfg, &vec![3, 3, 3, 3, 1, 1]), 1023);
    assert_eq!(perm_hash(&cfg, &vec![1, 2, 3, 2, 1, 0]), 1 + (2 << 2) + (3 << 4) + (2 << 6) + (1 << 8));
}

#[test]
fn state_hash_packs_ten_bits_for_each_row() {
    let cfg = Config::new(3, 1, 11);
    let a = vec![2u8, 1, 3, 0, 0, 1];
    let b = vec![1u8, 2, 3, 2, 1, 0];
    let ha = perm_hash(&cfg, &a) as u64;
    let hb = perm_hash(&cfg, &b) as u64;
    assert_eq!(state_hash(&cfg, &vec![a.clone(), b.clone()]), (ha << 10) | hb);
    assert_eq!(state_hash(&cfg, &vec![b.clone(), a.clone()]), (hb << 10) | ha);
    assert_eq!(state_hash(&cfg, &vec![a.clone()]), 566);
    assert_eq!(state_hash(&cfg, &Vec::new()), 0);
}

#[test]
fn every_renaming_of_the_ranks_keeps_the_signature() {
    let cfg = Config::new(3, 1, 11);
    let names: [[u8; 4]; 6] =
        [[0, 1, 2, 3], [0, 1, 3, 2], [0, 2, 1, 3], [0, 2, 3, 1], [0, 3, 1, 2], [0, 3, 2, 1]];
    let rows: [Vec<u8>; 4] = [
        vec![1, 2, 3, 0, 0, 0],
        vec![2, 2, 0, 1, 1, 0],
        vec![3, 3, 3, 3, 0, 1],
        vec![0, 1, 0, 2, 0, 0],
    ];
    for row in &rows {
        let sig = encode_signature(&cfg, row);
        for to in &names {
            let mut other = row.clone();
            for i in 0..4 {
                other[i] = to[row[i] as usize];
            }
            assert_eq!(encode_signature(&cfg, &other), sig);
        }
    }
}

#[test]
fn renaming_key_does_not_depend_on_the_order_of_rows() {
    let cfg = Config::new(3, 1, 11);
    let a = vec![1, 2, 3, 0, 0, 0];
    let b = vec![2, 2, 0, 1, 1, 0];
    let c = vec![3, 3, 3, 3, 0, 1];
    let key = renaming_key(&cfg, &vec![a.clone(), b.clone(), c.clone()]);
    assert_eq!(renaming_key(&cfg, &vec![c.clone(), a.clone(), b.clone()]), key);
    assert_eq!(renaming_key(&cfg, &vec![b.clone(), c.clone(), a.clone(), b, c, a]), key);
}
