//! Compact numbers for small machines: a register file packed into sixteen
//! bits, two for each register and one for each flag, and a joint state
//! packed into sixty-four, ten for each row.

use vstd::prelude::*;
use crate::config::Config;
use crate::order::{Permutation, State, rows};

verus! {

/// The registers below `k`, each shifted to its two bits and joined.
pub open spec fn pack_regs(perm: Seq<u8>, k: nat) -> u16
    decreases k,
{
    if k == 0 {
        0u16
    } else {
        pack_regs(perm, (k - 1) as nat) | ((perm[k - 1] as u16) << (((k - 1) * 2) as u16))
    }
}

/// The packed register file: the registers in the low bits, two each, then
/// the less-than flag, then the greater-than flag.
pub open spec fn perm_hash_spec(cfg: Config, perm: Seq<u8>) -> u16 {
    let r = cfg.regs_spec();
    pack_regs(perm, r as nat) | ((perm[r] as u16) << ((r * 2) as u16)) | ((perm[r + 1] as u16) << ((r
        * 2 + 1) as u16))
}

/// The packed joint state: each row's number in turn, behind the rows before
/// it moved up by ten bits.
pub open spec fn state_hash_spec(cfg: Config, s: Seq<Seq<u8>>) -> u64
    decreases s.len(),
{
    if s.len() == 0 {
        0u64
    } else {
        (state_hash_spec(cfg, s.drop_last()) << 10u64) | (perm_hash_spec(cfg, s.last()) as u64)
    }
}

/// Packs a register file into sixteen bits. The packing tells register files
/// apart as long as no register holds more than 3; the machine may have
/// seven registers at most.
pub fn perm_hash(cfg: &Config, perm: &Permutation) -> (hash: u16)
    requires
        cfg.wf(),
        cfg.regs_spec() <= 7,
        perm@.len() >= cfg.regs_spec() + 2,
    ensures
        hash == perm_hash_spec(*cfg, perm@),
{
    let regs: usize = cfg.regs();
    let mut hash: u16 = 0;
    let mut i: usize = 0;
    while i < regs
        invariant
            i <= regs <= 7,
            perm@.len() >= regs + 2,
            hash == pack_regs(perm@, i as nat),
        decreases regs - i,
    {
        hash = hash | ((perm[i] as u16) << ((i * 2) as u16));
        i += 1;
    }
    hash = hash | ((perm[regs] as u16) << ((regs * 2) as u16));
    hash = hash | ((perm[regs + 1] as u16) << ((regs * 2 + 1) as u16));
    hash
}

/// Packs a joint state into sixty-four bits, ten for each row in the order
/// given. Rows that are moved out at the top are lost: the packing tells
/// joint states of up to six rows of a machine with four registers apart.
pub fn state_hash(cfg: &Config, state: &State) -> (hash: u64)
    requires
        cfg.wf(),
        cfg.regs_spec() <= 7,
        forall|i: int|
            0 <= i < state.len() ==> (#[trigger] rows(*state)[i]).len() >= cfg.regs_spec() + 2,
    ensures
        hash == state_hash_spec(*cfg, rows(*state)),
{
    let mut hash: u64 = 0;
    let mut i: usize = 0;
    assert(rows(*state).take(0) =~= Seq::<Seq<u8>>::empty());
    while i < state.len()
        invariant
            i <= state.len(),
            cfg.wf(),
            cfg.regs_spec() <= 7,
            forall|i: int|
                0 <= i < state.len() ==> (#[trigger] rows(*state)[i]).len() >= cfg.regs_spec() + 2,
            hash == state_hash_spec(*cfg, rows(*state).take(i as int)),
        decreases state.len() - i,
    {
        proof {
            let more = rows(*state).take(i as int + 1);
            assert(more.drop_last() =~= rows(*state).take(i as int));
            assert(more.last() == state@[i as int]@);
            assert(rows(*state)[i as int] == state@[i as int]@);
        }
        hash = (hash << 10u64) | (perm_hash(cfg, &state[i]) as u64);
        i += 1;
    }
    assert(rows(*state).take(i as int) =~= rows(*state));
    hash
}

/// Joining two bits above what is packed leaves what is packed as it is.
proof fn lemma_join(h: u16, v: u16, s: u16, t: u16)
    requires
        s <= 14,
        v <= 3,
        h >> s == 0,
        t + 2 <= s,
    ensures
        ((h | (v << s)) >> t) & 3 == (h >> t) & 3,
{
    assert(s <= 14 && v <= 3 && h >> s == 0 && t + 2 <= s ==> ((h | (v << s)) >> t) & 3 == (h >> t)
        & 3) by (bit_vector);
}

/// Two bits that are joined above what is packed can be read back, and
/// nothing stands above them.
proof fn lemma_joined(h: u16, v: u16, s: u16)
    requires
        s <= 14,
        v <= 3,
        h >> s == 0,
    ensures
        ((h | (v << s)) >> s) & 3 == v,
        s <= 12 ==> (h | (v << s)) >> ((s + 2) as u16) == 0,
{
    assert(s <= 14 && v <= 3 && h >> s == 0 ==> ((h | (v << s)) >> s) & 3 == v) by (bit_vector);
    assert(s <= 12 && v <= 3 && h >> s == 0 ==> (h | (v << s)) >> ((s + 2) as u16) == 0)
        by (bit_vector);
}

/// Each register below `k` can be read back from what is packed of them, and
/// nothing stands above them.
pub proof fn lemma_pack_regs(perm: Seq<u8>, k: nat)
    requires
        k <= 7,
        perm.len() >= k,
        forall|i: int| 0 <= i < k ==> #[trigger] perm[i] <= 3,
    ensures
        pack_regs(perm, k) >> ((2 * k) as u16) == 0,
        forall|i: int|
            0 <= i < k ==> #[trigger] ((pack_regs(perm, k) >> ((2 * i) as u16)) & 3) == perm[i],
    decreases k,
{
    if k == 0 {
        assert(0u16 >> 0u16 == 0) by (bit_vector);
    } else {
        let j = (k - 1) as nat;
        lemma_pack_regs(perm, j);
        let h = pack_regs(perm, j);
        let v = perm[k - 1] as u16;
        let s = (2 * j) as u16;
        assert(pack_regs(perm, k) == h | (v << s));
        lemma_joined(h, v, s);
        assert forall|i: int| 0 <= i < k implies #[trigger] ((pack_regs(perm, k) >> ((2
            * i) as u16)) & 3) == perm[i] by {
            if i < k - 1 {
                lemma_join(h, v, s, (2 * i) as u16);
            }
        }
    }
}

/// The registers and the flags of a register file can be read back from its
/// packed number, as long as no register holds more than 3 and each flag is
/// 0 or 1: so two such register files with the same number are the same.
pub proof fn lemma_perm_hash_tells_apart(cfg: Config, p: Seq<u8>, q: Seq<u8>)
    requires
        cfg.wf(),
        cfg.regs_spec() <= 7,
        p.len() == cfg.regs_spec() + 2,
        q.len() == cfg.regs_spec() + 2,
        forall|i: int| 0 <= i < cfg.regs_spec() ==> #[trigger] p[i] <= 3,
        forall|i: int| 0 <= i < cfg.regs_spec() ==> #[trigger] q[i] <= 3,
        p[cfg.regs_spec()] <= 1,
        p[cfg.regs_spec() + 1] <= 1,
        q[cfg.regs_spec()] <= 1,
        q[cfg.regs_spec() + 1] <= 1,
        perm_hash_spec(cfg, p) == perm_hash_spec(cfg, q),
    ensures
        p == q,
{
    let r = cfg.regs_spec();
    let s = (2 * r) as u16;
    lemma_unpack(cfg, p);
    lemma_unpack(cfg, q);
    let h = perm_hash_spec(cfg, p);
    assert forall|i: int| 0 <= i < p.len() implies p[i] == q[i] by {
        if i < r {
            assert(((h >> ((2 * i) as u16)) & 3) == p[i]);
            assert(((h >> ((2 * i) as u16)) & 3) == q[i]);
        }
    }
    assert(p =~= q);
}

/// Every register and each flag of a register file can be read back from
/// its packed number.
pub proof fn lemma_unpack(cfg: Config, p: Seq<u8>)
    requires
        cfg.wf(),
        cfg.regs_spec() <= 7,
        p.len() == cfg.regs_spec() + 2,
        forall|i: int| 0 <= i < cfg.regs_spec() ==> #[trigger] p[i] <= 3,
        p[cfg.regs_spec()] <= 1,
        p[cfg.regs_spec() + 1] <= 1,
    ensures
        forall|i: int|
            0 <= i < cfg.regs_spec() ==> #[trigger] ((perm_hash_spec(cfg, p) >> ((2 * i) as u16))
                & 3) == p[i],
        (perm_hash_spec(cfg, p) >> ((2 * cfg.regs_spec()) as u16)) & 1 == p[cfg.regs_spec()],
        (perm_hash_spec(cfg, p) >> ((2 * cfg.regs_spec() + 1) as u16)) & 1 == p[cfg.regs_spec()
            + 1],
{
    let r = cfg.regs_spec();
    let b = pack_regs(p, r as nat);
    let s = (2 * r) as u16;
    let s1 = (2 * r + 1) as u16;
    let lt = p[r] as u16;
    let gt = p[r + 1] as u16;
    let h = perm_hash_spec(cfg, p);
    lemma_pack_regs(p, r as nat);
    assert(h == b | (lt << s) | (gt << s1));
    assert(s <= 14 && s1 == s + 1 && lt <= 1 && gt <= 1 && b >> s == 0 ==> ((b | (lt << s) | (gt
        << s1)) >> s) & 1 == lt && ((b | (lt << s) | (gt << s1)) >> s1) & 1 == gt) by (bit_vector);
    assert forall|i: int| 0 <= i < r implies #[trigger] ((h >> ((2 * i) as u16)) & 3) == p[i] by {
        let t = (2 * i) as u16;
        assert(((b >> t) & 3) == p[i]);
        assert(s <= 14 && s1 == s + 1 && lt <= 1 && gt <= 1 && t + 2 <= s ==> ((b | (lt << s) | (gt
            << s1)) >> t) & 3 == (b >> t) & 3) by (bit_vector);
    }
}

} // verus!
