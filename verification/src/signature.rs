//! The renaming-invariant signature of a register file: for each rank the
//! registers that hold it, the lists in increasing order, and the flags. Two
//! register files that differ only in which rank stands where have the same
//! signature. The key made of signatures is coarser than the canonical key:
//! it serves the approximate mode only.

use vstd::prelude::*;
use crate::canon::{key_of, normalize, state_positions};
use crate::config::Config;
use crate::order::{Permutation, RowOrder, State, rows, lex_lt, compare_rows};

verus! {

/// The signature of a register file.
#[derive(Debug)]
pub struct PermInfo {
    /// For each rank the registers that hold it, in increasing order of the
    /// lists.
    pub perm: Vec<Vec<u8>>,
    /// The less-than flag and the greater-than flag.
    pub flags: Vec<bool>,
}

/// The registers below `k` that hold the rank `n`, in increasing order.
pub open spec fn positions_upto(perm: Seq<u8>, n: int, k: nat) -> Seq<u8>
    decreases k,
{
    if k == 0 {
        Seq::empty()
    } else if perm[k - 1] == n {
        positions_upto(perm, n, (k - 1) as nat).push((k - 1) as u8)
    } else {
        positions_upto(perm, n, (k - 1) as nat)
    }
}

/// For each rank from 1 to `N` the general registers that hold it.
pub open spec fn position_lists(cfg: Config, perm: Seq<u8>) -> Seq<Seq<u8>> {
    Seq::new(cfg.numbers as nat, |n: int| positions_upto(perm, n + 1, cfg.regs_spec() as nat))
}

/// A list put into an increasing sequence of lists, behind the lists that
/// are equal to it.
pub open spec fn insert_keep(s: Seq<Seq<u8>>, r: Seq<u8>) -> Seq<Seq<u8>>
    decreases s.len(),
{
    if s.len() == 0 {
        seq![r]
    } else if lex_lt(r, s.last()) {
        insert_keep(s.drop_last(), r).push(s.last())
    } else {
        s.push(r)
    }
}

/// The lists in increasing order, each as often as it is given.
pub open spec fn sort_lists(lists: Seq<Seq<u8>>) -> Seq<Seq<u8>>
    decreases lists.len(),
{
    if lists.len() == 0 {
        Seq::empty()
    } else {
        insert_keep(sort_lists(lists.drop_last()), lists.last())
    }
}

/// Where every list from `k` on comes after `r` and the list before `k` does
/// not, `r` is put at `k`.
pub proof fn lemma_insert_keep_at(s: Seq<Seq<u8>>, r: Seq<u8>, k: int)
    requires
        0 <= k <= s.len(),
        forall|j: int| k <= j < s.len() ==> lex_lt(r, #[trigger] s[j]),
        k > 0 ==> !lex_lt(r, s[k - 1]),
    ensures
        insert_keep(s, r) == s.insert(k, r),
    decreases s.len() - k,
{
    if k == s.len() {
        assert(s.insert(k, r) =~= s.push(r));
    } else {
        assert(lex_lt(r, s[s.len() - 1]));
        let head = s.drop_last();
        lemma_insert_keep_at(head, r, k);
        assert(head.insert(k, r).push(s.last()) =~= s.insert(k, r));
    }
}

/// Puts a list into an increasing sequence of lists, behind the lists that
/// are equal to it.
pub fn insert_list(lists: &mut State, row: Permutation)
    ensures
        rows(*final(lists)) == insert_keep(rows(*old(lists)), row@),
{
    let ghost before = rows(*lists);
    let mut k: usize = lists.len();
    while k > 0
        invariant
            k <= lists.len(),
            *lists == *old(lists),
            before == rows(*lists),
            forall|j: int| k <= j < lists.len() ==> lex_lt(row@, #[trigger] before[j]),
        ensures
            k > 0 ==> !lex_lt(row@, before[k - 1]),
        decreases k,
    {
        let o = compare_rows(&row, &lists[k - 1]);
        if o == RowOrder::Less {
            k -= 1;
        } else {
            break ;
        }
    }
    let ghost row_view = row@;
    lists.insert(k, row);
    proof {
        lemma_insert_keep_at(before, row_view, k as int);
        assert(rows(*lists) =~= before.insert(k as int, row_view));
    }
}

/// The general registers that hold one rank, in increasing order.
fn positions(cfg: &Config, perm: &Permutation, n: u8) -> (list: Permutation)
    requires
        cfg.wf(),
        cfg.regs_spec() <= 256,
        perm@.len() >= cfg.regs_spec(),
    ensures
        list@ == positions_upto(perm@, n as int, cfg.regs_spec() as nat),
{
    let regs: usize = cfg.regs();
    let mut list: Permutation = Vec::new();
    let mut i: usize = 0;
    while i < regs
        invariant
            i <= regs <= 256,
            perm@.len() >= regs,
            list@ == positions_upto(perm@, n as int, i as nat),
        decreases regs - i,
    {
        if perm[i] == n {
            list.push(i as u8);
        }
        i += 1;
    }
    list
}

/// The signature of a register file: for each rank from 1 to `N` the list of
/// the general registers that hold it, the lists in increasing order, and the
/// two flags as truth values. Which rank a list belongs to is forgotten.
pub fn perm_positions(cfg: &Config, perm: &Permutation) -> (info: PermInfo)
    requires
        cfg.wf(),
        cfg.regs_spec() <= 256,
        perm@.len() >= cfg.regs_spec() + 2,
    ensures
        rows(info.perm) == sort_lists(position_lists(*cfg, perm@)),
        info.flags@ == seq![perm@[cfg.regs_spec()] == 1, perm@[cfg.regs_spec() + 1] == 1],
{
    let regs: usize = cfg.regs();
    let mut lists: State = Vec::new();
    let ghost all = position_lists(*cfg, perm@);
    let mut n: usize = 0;
    assert(all.take(0) =~= Seq::<Seq<u8>>::empty());
    while n < cfg.numbers
        invariant
            n <= cfg.numbers,
            cfg.wf(),
            cfg.regs_spec() <= 256,
            perm@.len() >= cfg.regs_spec() + 2,
            all == position_lists(*cfg, perm@),
            rows(lists) == sort_lists(all.take(n as int)),
        decreases cfg.numbers - n,
    {
        let list = positions(cfg, perm, (n + 1) as u8);
        proof {
            let more = all.take(n as int + 1);
            assert(more.drop_last() =~= all.take(n as int));
            assert(more.last() == list@);
        }
        insert_list(&mut lists, list);
        n += 1;
    }
    assert(all.take(n as int) =~= all);
    let mut flags: Vec<bool> = Vec::new();
    flags.push(perm[regs] == 1);
    flags.push(perm[regs + 1] == 1);
    assert(flags@ =~= seq![perm@[cfg.regs_spec()] == 1, perm@[cfg.regs_spec() + 1] == 1]);
    PermInfo { perm: lists, flags }
}

/// The byte that stands for a flag.
pub open spec fn flag_byte(b: bool) -> u8 {
    if b {
        1u8
    } else {
        0u8
    }
}

/// The lists as bytes: each list behind its length.
pub open spec fn encode_lists(lists: Seq<Seq<u8>>) -> Seq<u8>
    decreases lists.len(),
{
    if lists.len() == 0 {
        Seq::empty()
    } else {
        encode_lists(lists.drop_last()) + seq![lists.last().len() as u8] + lists.last()
    }
}

/// The signature of a register file as bytes: the lists, each behind its
/// length, then one byte for each flag.
pub open spec fn signature_bytes(cfg: Config, perm: Seq<u8>) -> Seq<u8> {
    encode_lists(sort_lists(position_lists(cfg, perm))) + seq![
        flag_byte(perm[cfg.regs_spec()] == 1),
        flag_byte(perm[cfg.regs_spec() + 1] == 1),
    ]
}

/// The signatures of the rows of a joint state, as bytes.
pub open spec fn signatures(cfg: Config, s: Seq<Seq<u8>>) -> Seq<Seq<u8>> {
    s.map_values(|r: Seq<u8>| signature_bytes(cfg, r))
}

/// Writes the signature of a register file as bytes.
pub fn encode_signature(cfg: &Config, perm: &Permutation) -> (bytes: Vec<u8>)
    requires
        cfg.wf(),
        cfg.regs_spec() <= 255,
        perm@.len() >= cfg.regs_spec() + 2,
    ensures
        bytes@ == signature_bytes(*cfg, perm@),
{
    let info = perm_positions(cfg, perm);
    let ghost lists = rows(info.perm);
    let mut bytes: Vec<u8> = Vec::new();
    let mut i: usize = 0;
    assert(lists.take(0) =~= Seq::<Seq<u8>>::empty());
    while i < info.perm.len()
        invariant
            i <= info.perm.len(),
            lists == rows(info.perm),
            bytes@ == encode_lists(lists.take(i as int)),
        decreases info.perm.len() - i,
    {
        let list = &info.perm[i];
        let ghost done = bytes@;
        bytes.push(list.len() as u8);
        let mut j: usize = 0;
        while j < list.len()
            invariant
                j <= list.len(),
                bytes@ == done + seq![list.len() as u8] + list@.take(j as int),
            decreases list.len() - j,
        {
            bytes.push(list[j]);
            assert(list@.take(j as int + 1) =~= list@.take(j as int).push(list@[j as int]));
            j += 1;
        }
        proof {
            let more = lists.take(i as int + 1);
            assert(list@.take(j as int) =~= list@);
            assert(more.drop_last() =~= lists.take(i as int));
            assert(more.last() == list@);
        }
        i += 1;
    }
    assert(lists.take(i as int) =~= lists);
    bytes.push(if info.flags[0] { 1 } else { 0 });
    bytes.push(if info.flags[1] { 1 } else { 0 });
    assert(bytes@ =~= signature_bytes(*cfg, perm@));
    bytes
}

/// Computes the key of a joint state in the approximate mode: the signatures
/// of its rows, each once, in increasing order, their bytes one after
/// another. Joint states that differ only by a renaming of ranks within rows
/// get the same key.
pub fn renaming_key(cfg: &Config, state: &State) -> (key: Vec<u8>)
    requires
        cfg.wf(),
        cfg.regs_spec() <= 255,
        forall|i: int|
            0 <= i < state.len() ==> (#[trigger] rows(*state)[i]).len() >= cfg.regs_spec() + 2,
    ensures
        key@ == key_of(signatures(*cfg, rows(*state))),
{
    let mut sigs: State = Vec::new();
    let mut i: usize = 0;
    while i < state.len()
        invariant
            i <= state.len(),
            cfg.wf(),
            cfg.regs_spec() <= 255,
            forall|i: int|
                0 <= i < state.len() ==> (#[trigger] rows(*state)[i]).len() >= cfg.regs_spec() + 2,
            sigs.len() == i,
            forall|k: int|
                0 <= k < i ==> (#[trigger] sigs@[k])@ == signature_bytes(*cfg, rows(*state)[k]),
        decreases state.len() - i,
    {
        assert(rows(*state)[i as int] == state@[i as int]@);
        let sig = encode_signature(cfg, &state[i]);
        sigs.push(sig);
        i += 1;
    }
    assert(rows(sigs) =~= signatures(*cfg, rows(*state)));
    let listing = normalize(&sigs);
    state_positions(&listing)
}

} // verus!
