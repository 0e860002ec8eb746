//! Why the signature of a register file does not depend on the names of the
//! ranks: where the ranks of a register file are renamed, each list of
//! registers moves to another rank, and the lists in increasing order are the
//! same as before.

use vstd::prelude::*;
use vstd::relations::{sorted_by, total_ordering};
use vstd::seq_lib::{lemma_sorted_unique, to_multiset_build, to_multiset_insert, to_multiset_remove};
use crate::canon::{key_of, lemma_key_order_invariant};
use crate::config::Config;
use crate::order::{
    lex_lt,
    same_members,
    lemma_lex_asymmetric,
    lemma_lex_irreflexive,
    lemma_lex_total,
    lemma_lex_transitive,
};
use crate::signature::{
    insert_keep,
    position_lists,
    positions_upto,
    signature_bytes,
    signatures,
    sort_lists,
};

verus! {

/// `to` gives every rank from 1 to `n` another name among the ranks, no two
/// the same, and leaves the zero as it is.
pub open spec fn is_renaming(n: int, to: Seq<u8>) -> bool {
    &&& to.len() == n + 1
    &&& to[0] == 0
    &&& forall|v: int| 1 <= v <= n ==> 1 <= #[trigger] to[v] <= n
    &&& forall|v: int, w: int| 0 <= v < w <= n ==> #[trigger] to[v] != #[trigger] to[w]
}

/// `q` is the register file `p` with its ranks renamed by `to`: the general
/// registers hold the new names, and the flags are as they were.
pub open spec fn renamed(cfg: Config, to: Seq<u8>, p: Seq<u8>, q: Seq<u8>) -> bool {
    &&& p.len() >= cfg.regs_spec() + 2
    &&& q.len() >= cfg.regs_spec() + 2
    &&& forall|i: int| 0 <= i < cfg.regs_spec() ==> (#[trigger] p[i]) <= cfg.numbers
    &&& forall|i: int| 0 <= i < cfg.regs_spec() ==> (#[trigger] q[i]) == to[p[i] as int]
    &&& (p[cfg.regs_spec() as int] == 1) == (q[cfg.regs_spec() as int] == 1)
    &&& (p[cfg.regs_spec() + 1] == 1) == (q[cfg.regs_spec() + 1] == 1)
}

/// One list comes before the other or is equal to it.
pub open spec fn lex_le(a: Seq<u8>, b: Seq<u8>) -> bool {
    !lex_lt(b, a)
}

/// The order of the lists as a relation.
pub open spec fn list_order() -> spec_fn(Seq<u8>, Seq<u8>) -> bool {
    |a: Seq<u8>, b: Seq<u8>| lex_le(a, b)
}

/// The order of the lists is total.
pub proof fn lemma_list_order_total()
    ensures
        total_ordering(list_order()),
{
    let r = list_order();
    assert forall|a: Seq<u8>| #[trigger] r(a, a) by {
        lemma_lex_irreflexive(a);
    }
    assert forall|a: Seq<u8>, b: Seq<u8>| #[trigger] r(a, b) && #[trigger] r(b, a) implies a
        == b by {
        lemma_lex_total(a, b);
    }
    assert forall|a: Seq<u8>, b: Seq<u8>, c: Seq<u8>| #[trigger] r(a, b) && #[trigger] r(
        b,
        c,
    ) implies r(a, c) by {
        lemma_lex_total(a, b);
        if lex_lt(c, a) && lex_lt(a, b) {
            lemma_lex_transitive(c, a, b);
        }
    }
    assert forall|a: Seq<u8>, b: Seq<u8>| #[trigger] r(a, b) || #[trigger] r(b, a) by {
        if lex_lt(b, a) {
            lemma_lex_asymmetric(b, a);
        }
    }
}

/// A list is put into a sequence at some place, behind every list that does
/// not come after it and before every list that does.
pub proof fn lemma_insert_keep_place(s: Seq<Seq<u8>>, r: Seq<u8>) -> (k: int)
    ensures
        0 <= k <= s.len(),
        insert_keep(s, r) == s.insert(k, r),
        forall|j: int| k <= j < s.len() ==> lex_lt(r, #[trigger] s[j]),
        k > 0 ==> !lex_lt(r, s[k - 1]),
    decreases s.len(),
{
    if s.len() == 0 {
        assert(s.insert(0, r) =~= seq![r]);
        0
    } else if lex_lt(r, s.last()) {
        let head = s.drop_last();
        let k = lemma_insert_keep_place(head, r);
        assert(head.insert(k, r).push(s.last()) =~= s.insert(k, r));
        assert forall|j: int| k <= j < s.len() implies lex_lt(r, #[trigger] s[j]) by {
            if j < head.len() {
                assert(head[j] == s[j]);
            }
        }
        assert(k > 0 ==> head[k - 1] == s[k - 1]);
        k
    } else {
        assert(s.insert(s.len() as int, r) =~= s.push(r));
        s.len() as int
    }
}

/// The lists in increasing order are the lists that were given, each as
/// often as it was given, and they stand in increasing order.
pub proof fn lemma_sort_lists(lists: Seq<Seq<u8>>)
    ensures
        sort_lists(lists).to_multiset() == lists.to_multiset(),
        sorted_by(sort_lists(lists), list_order()),
    decreases lists.len(),
{
    if lists.len() == 0 {
        assert(sort_lists(lists) =~= lists);
    } else {
        let head = lists.drop_last();
        let r = lists.last();
        let s = sort_lists(head);
        lemma_sort_lists(head);
        let k = lemma_insert_keep_place(s, r);
        let t = s.insert(k, r);
        to_multiset_insert(s, k, r);
        to_multiset_build(head, r);
        assert(head.push(r) =~= lists);
        let le = list_order();
        assert forall|i: int, j: int| 0 <= i < j < t.len() implies #[trigger] le(t[i], t[j]) by {
            if j < k {
                assert(le(s[i], s[j]));
            } else if j == k {
                // s[i] does not come after s[k - 1], which does not come after r
                if i < k - 1 {
                    assert(le(s[i], s[k - 1]));
                }
                if lex_lt(r, s[i]) {
                    lemma_lex_total(s[i], s[k - 1]);
                    if lex_lt(s[i], s[k - 1]) {
                        lemma_lex_transitive(r, s[i], s[k - 1]);
                    }
                }
            } else if i < k {
                assert(le(s[i], s[j - 1]));
            } else if i == k {
                lemma_lex_asymmetric(r, s[j - 1]);
            } else {
                assert(le(s[i - 1], s[j - 1]));
            }
        }
        assert(sorted_by(t, list_order()));
    }
}

/// A sequence whose items are the items of another, each taken from a place
/// of its own, holds the same items as often.
pub proof fn lemma_moved_items(a: Seq<Seq<u8>>, b: Seq<Seq<u8>>, at: Seq<int>)
    requires
        a.len() == b.len(),
        at.len() == b.len(),
        forall|i: int| 0 <= i < at.len() ==> 0 <= #[trigger] at[i] < a.len(),
        forall|i: int, j: int| 0 <= i < j < at.len() ==> #[trigger] at[i] != #[trigger] at[j],
        forall|i: int| 0 <= i < b.len() ==> #[trigger] b[i] == a[at[i]],
    ensures
        a.to_multiset() == b.to_multiset(),
    decreases b.len(),
{
    if b.len() == 0 {
        assert(a =~= b);
    } else {
        let n = b.len() - 1;
        let k = at[n];
        let a1 = a.remove(k);
        let b1 = b.drop_last();
        let at1 = Seq::new(
            n as nat,
            |i: int|
                if at[i] < k {
                    at[i]
                } else {
                    at[i] - 1
                },
        );
        assert forall|i: int| 0 <= i < at1.len() implies 0 <= #[trigger] at1[i] < a1.len() by {
            assert(at[i] != at[n]);
        }
        assert forall|i: int, j: int| 0 <= i < j < at1.len() implies #[trigger] at1[i]
            != #[trigger] at1[j] by {
            assert(at[i] != at[j]);
            assert(at[i] != at[n]);
            assert(at[j] != at[n]);
        }
        assert forall|i: int| 0 <= i < b1.len() implies #[trigger] b1[i] == a1[at1[i]] by {
            assert(b1[i] == b[i]);
            assert(at[i] != at[n]);
        }
        lemma_moved_items(a1, b1, at1);
        to_multiset_remove(a, k);
        to_multiset_build(b1, b[n]);
        assert(b1.push(b[n]) =~= b);
        assert(a.to_multiset() =~= a1.to_multiset().insert(a[k])) by {
            broadcast use vstd::multiset::group_multiset_axioms;
            broadcast use vstd::seq_lib::group_to_multiset_ensures;

            assert(a.to_multiset().count(a[k]) > 0);
        }
    }
}

/// The registers that hold a rank hold its new name after the renaming.
pub proof fn lemma_positions_renamed(
    cfg: Config,
    to: Seq<u8>,
    p: Seq<u8>,
    q: Seq<u8>,
    n: int,
    k: nat,
)
    requires
        is_renaming(cfg.numbers as int, to),
        renamed(cfg, to, p, q),
        1 <= n <= cfg.numbers,
        k <= cfg.regs_spec(),
    ensures
        positions_upto(q, to[n] as int, k) == positions_upto(p, n, k),
    decreases k,
{
    if k > 0 {
        lemma_positions_renamed(cfg, to, p, q, n, (k - 1) as nat);
        let v = p[k - 1] as int;
        assert(q[k - 1] == to[v]);
        if v != n {
            if v < n {
                assert(to[v] != to[n]);
            } else {
                assert(to[n] != to[v]);
            }
        }
    }
}

/// The signature of a register file does not depend on the names of its
/// ranks: a register file and the same with its ranks renamed have the same
/// signature.
pub proof fn lemma_signature_renamed(cfg: Config, to: Seq<u8>, p: Seq<u8>, q: Seq<u8>)
    requires
        cfg.wf(),
        is_renaming(cfg.numbers as int, to),
        renamed(cfg, to, p, q),
    ensures
        signature_bytes(cfg, p) == signature_bytes(cfg, q),
{
    let a = position_lists(cfg, q);
    let b = position_lists(cfg, p);
    let at = Seq::new(cfg.numbers as nat, |i: int| to[i + 1] as int - 1);
    assert forall|i: int, j: int| 0 <= i < j < at.len() implies #[trigger] at[i] != #[trigger] at[j] by {
        assert(to[i + 1] != to[j + 1]);
    }
    assert forall|i: int| 0 <= i < b.len() implies #[trigger] b[i] == a[at[i]] by {
        lemma_positions_renamed(cfg, to, p, q, i + 1, cfg.regs_spec() as nat);
        assert(1 <= to[i + 1] <= cfg.numbers);
    }
    assert forall|i: int| 0 <= i < at.len() implies 0 <= #[trigger] at[i] < a.len() by {
        assert(1 <= to[i + 1] <= cfg.numbers);
    }
    lemma_moved_items(a, b, at);
    lemma_sort_lists(a);
    lemma_sort_lists(b);
    lemma_list_order_total();
    lemma_sorted_unique(sort_lists(a), sort_lists(b), list_order());
}

/// The key made of signatures does not depend on the order in which the rows
/// of a joint state are given, nor on how often one is given.
pub proof fn lemma_renaming_key_order_invariant(cfg: Config, s1: Seq<Seq<u8>>, s2: Seq<Seq<u8>>)
    requires
        same_members(s1, s2),
    ensures
        key_of(signatures(cfg, s1)) == key_of(signatures(cfg, s2)),
{
    let t1 = signatures(cfg, s1);
    let t2 = signatures(cfg, s2);
    assert forall|r: Seq<u8>| t1.contains(r) <==> t2.contains(r) by {
        if t1.contains(r) {
            let i = choose|i: int| 0 <= i < t1.len() && t1[i] == r;
            assert(s1.contains(s1[i]));
            let j = choose|j: int| 0 <= j < s2.len() && s2[j] == s1[i];
            assert(t2[j] == r);
        }
        if t2.contains(r) {
            let i = choose|i: int| 0 <= i < t2.len() && t2[i] == r;
            assert(s2.contains(s2[i]));
            let j = choose|j: int| 0 <= j < s1.len() && s1[j] == s2[i];
            assert(t1[j] == r);
        }
    }
    lemma_key_order_invariant(t1, t2);
}

/// Joint states whose rows differ only by renamings of their ranks, each row
/// by one of its own, have the same key made of signatures.
pub proof fn lemma_renaming_key_renamed(
    cfg: Config,
    s1: Seq<Seq<u8>>,
    s2: Seq<Seq<u8>>,
    names: Seq<Seq<u8>>,
)
    requires
        cfg.wf(),
        s1.len() == s2.len(),
        names.len() == s1.len(),
        forall|i: int|
            0 <= i < s1.len() ==> is_renaming(cfg.numbers as int, #[trigger] names[i]) && renamed(
                cfg,
                names[i],
                s1[i],
                s2[i],
            ),
    ensures
        key_of(signatures(cfg, s1)) == key_of(signatures(cfg, s2)),
{
    assert forall|i: int| 0 <= i < s1.len() implies signature_bytes(cfg, s1[i]) == signature_bytes(
        cfg,
        s2[i],
    ) by {
        assert(is_renaming(cfg.numbers as int, names[i]));
        lemma_signature_renamed(cfg, names[i], s1[i], s2[i]);
    }
    assert(signatures(cfg, s1) =~= signatures(cfg, s2));
}

} // verus!
