//! The canonical key of a joint state: its rows listed once each in
//! increasing order, their bytes one after another. Two joint states with the
//! same rows have the same key, in whatever order the rows are given, and
//! joint states with different rows have different keys.

use vstd::prelude::*;
use crate::config::Config;
use crate::machine::{copy_row, uniform};
use crate::order::{
    State,
    rows,
    is_listing_of,
    listing,
    strictly_sorted,
    same_members,
    insert_sorted,
    lemma_listing,
    lemma_listing_is,
    lemma_listing_of_members,
};

verus! {

/// The bytes of all rows, one row after another.
pub open spec fn concat_rows(s: Seq<Seq<u8>>) -> Seq<u8>
    decreases s.len(),
{
    if s.len() == 0 {
        Seq::empty()
    } else {
        concat_rows(s.drop_last()) + s.last()
    }
}

/// The canonical key of a list of rows.
pub open spec fn key_of(s: Seq<Seq<u8>>) -> Seq<u8> {
    concat_rows(listing(s))
}

/// Writes the bytes of all rows one after another, in the order given. Of a
/// joint state that is already listed in increasing order this is the
/// canonical key.
pub fn state_positions(state: &State) -> (bytes: Vec<u8>)
    ensures
        bytes@ == concat_rows(rows(*state)),
{
    let mut bytes: Vec<u8> = Vec::new();
    let mut i: usize = 0;
    assert(rows(*state).take(0) =~= Seq::<Seq<u8>>::empty());
    while i < state.len()
        invariant
            i <= state.len(),
            bytes@ == concat_rows(rows(*state).take(i as int)),
        decreases state.len() - i,
    {
        let row = &state[i];
        let ghost done = bytes@;
        let mut j: usize = 0;
        while j < row.len()
            invariant
                j <= row.len(),
                bytes@ == done + row@.take(j as int),
            decreases row.len() - j,
        {
            bytes.push(row[j]);
            assert(row@.take(j as int + 1) =~= row@.take(j as int).push(row@[j as int]));
            j += 1;
        }
        proof {
            let upto = rows(*state).take(i as int + 1);
            assert(row@.take(j as int) =~= row@);
            assert(upto.drop_last() =~= rows(*state).take(i as int));
            assert(upto.last() == row@);
        }
        i += 1;
    }
    assert(rows(*state).take(i as int) =~= rows(*state));
    bytes
}

/// Lists the rows of a joint state once each, in increasing order.
pub fn normalize(state: &State) -> (out: State)
    ensures
        rows(out) == listing(rows(*state)),
        is_listing_of(rows(out), rows(*state)),
{
    let mut out: State = Vec::new();
    let ghost source = rows(*state);
    let mut i: usize = 0;
    while i < state.len()
        invariant
            i <= state.len(),
            source == rows(*state),
            strictly_sorted(rows(out)),
            forall|r: Seq<u8>|
                #![trigger rows(out).contains(r)]
                rows(out).contains(r) <==> source.take(i as int).contains(r),
        decreases state.len() - i,
    {
        let row = copy_row(&state[i]);
        let ghost fresh = row@;
        insert_sorted(&mut out, row);
        proof {
            let done = source.take(i as int);
            let more = source.take(i as int + 1);
            assert(more =~= done.push(fresh));
            assert forall|r: Seq<u8>|
                #![trigger rows(out).contains(r)]
                rows(out).contains(r) <==> more.contains(r) by {
                vstd::seq_lib::lemma_seq_contains_after_push(done, fresh, r);
            }
        }
        i += 1;
    }
    proof {
        assert(source.take(i as int) =~= source);
        lemma_listing_is(rows(out), source);
    }
    out
}

/// Computes the canonical key of a joint state: the bytes of its rows, each
/// row once, the rows in increasing order.
pub fn canonical_key(state: &State) -> (key: Vec<u8>)
    ensures
        key@ == key_of(rows(*state)),
{
    let out = normalize(state);
    state_positions(&out)
}

/// The canonical key does not depend on the order in which the rows of a
/// joint state are given, nor on how often one is given: two lists with the
/// same rows have the same key.
pub proof fn lemma_key_order_invariant(s1: Seq<Seq<u8>>, s2: Seq<Seq<u8>>)
    requires
        same_members(s1, s2),
    ensures
        key_of(s1) == key_of(s2),
{
    lemma_listing_of_members(s1, s2);
}

/// The key of a joint state that is listed in increasing order is the bytes
/// of its rows as they stand.
pub proof fn lemma_key_of_listing(s: Seq<Seq<u8>>)
    requires
        strictly_sorted(s),
    ensures
        key_of(s) == concat_rows(s),
{
    assert(same_members(s, s));
    lemma_listing_is(s, s);
}

/// The bytes of rows of one width are as many as rows times width.
pub proof fn lemma_concat_len(cfg: Config, s: Seq<Seq<u8>>)
    requires
        uniform(cfg, s),
    ensures
        concat_rows(s).len() == s.len() * cfg.width_spec(),
    decreases s.len(),
{
    if s.len() > 0 {
        let head = s.drop_last();
        assert(uniform(cfg, head)) by {
            assert forall|i: int| 0 <= i < head.len() implies (#[trigger] head[i]).len()
                == cfg.width_spec() by {
                assert(head[i] == s[i]);
            }
        }
        lemma_concat_len(cfg, head);
        assert(s.last().len() == cfg.width_spec());
        assert(s.len() * cfg.width_spec() == head.len() * cfg.width_spec() + cfg.width_spec())
            by (nonlinear_arith)
            requires
                s.len() == head.len() + 1,
        ;
    }
}

/// The canonical key tells joint states apart: two lists of rows of the
/// machine's width with the same bytes are the same list.
pub proof fn lemma_concat_injective(cfg: Config, s: Seq<Seq<u8>>, t: Seq<Seq<u8>>)
    requires
        cfg.wf(),
        uniform(cfg, s),
        uniform(cfg, t),
        concat_rows(s) == concat_rows(t),
    ensures
        s == t,
    decreases s.len(),
{
    let w = cfg.width_spec();
    lemma_concat_len(cfg, s);
    lemma_concat_len(cfg, t);
    assert(s.len() == t.len()) by (nonlinear_arith)
        requires
            s.len() * w == t.len() * w,
            w > 0,
    ;
    if s.len() == 0 {
        assert(s =~= t);
    } else {
        let hs = s.drop_last();
        let ht = t.drop_last();
        assert(uniform(cfg, hs)) by {
            assert forall|i: int| 0 <= i < hs.len() implies (#[trigger] hs[i]).len() == w by {
                assert(hs[i] == s[i]);
            }
        }
        assert(uniform(cfg, ht)) by {
            assert forall|i: int| 0 <= i < ht.len() implies (#[trigger] ht[i]).len() == w by {
                assert(ht[i] == t[i]);
            }
        }
        lemma_concat_len(cfg, hs);
        lemma_concat_len(cfg, ht);
        let whole = concat_rows(s);
        let cut = concat_rows(hs).len() as int;
        assert(concat_rows(ht).len() == cut) by (nonlinear_arith)
            requires
                concat_rows(ht).len() == ht.len() * w,
                cut == hs.len() * w,
                hs.len() == ht.len(),
        ;
        assert(s.last().len() == w);
        assert(t.last().len() == w);
        assert(whole == concat_rows(hs) + s.last());
        assert(whole == concat_rows(ht) + t.last());
        assert(concat_rows(hs) =~= whole.subrange(0, cut));
        assert(concat_rows(ht) =~= whole.subrange(0, cut));
        assert(s.last() =~= whole.subrange(cut, whole.len() as int));
        assert(t.last() =~= whole.subrange(cut, whole.len() as int));
        lemma_concat_injective(cfg, hs, ht);
        assert(s =~= hs.push(s.last()));
        assert(t =~= ht.push(t.last()));
    }
}

/// The canonical key is exact: two joint states of the machine with the
/// same key have the same rows.
pub proof fn lemma_key_is_exact(cfg: Config, s: Seq<Seq<u8>>, t: Seq<Seq<u8>>)
    requires
        cfg.wf(),
        uniform(cfg, s),
        uniform(cfg, t),
        key_of(s) == key_of(t),
    ensures
        same_members(s, t),
{
    lemma_listing(s);
    lemma_listing(t);
    assert(uniform(cfg, listing(s))) by {
        assert forall|i: int| 0 <= i < listing(s).len() implies (#[trigger] listing(s)[i]).len()
            == cfg.width_spec() by {
            assert(listing(s).contains(listing(s)[i]));
            let j = choose|j: int| 0 <= j < s.len() && s[j] == listing(s)[i];
        }
    }
    assert(uniform(cfg, listing(t))) by {
        assert forall|i: int| 0 <= i < listing(t).len() implies (#[trigger] listing(t)[i]).len()
            == cfg.width_spec() by {
            assert(listing(t).contains(listing(t)[i]));
            let j = choose|j: int| 0 <= j < t.len() && t[j] == listing(t)[i];
        }
    }
    lemma_concat_injective(cfg, listing(s), listing(t));
    assert forall|r: Seq<u8>| s.contains(r) <==> t.contains(r) by {
        assert(s.contains(r) <==> listing(s).contains(r));
        assert(t.contains(r) <==> listing(t).contains(r));
    }
}

} // verus!
