//! The order of register files and the sorted, duplicate-free listing of a
//! joint state.

use vstd::prelude::*;

verus! {

/// A register file.
pub type Permutation = Vec<u8>;

/// A joint state: one register file for each input ordering that is still
/// told apart.
pub type State = Vec<Permutation>;

/// The register files of a joint state, as mathematical sequences.
pub open spec fn rows(state: State) -> Seq<Seq<u8>> {
    state@.map_values(|p: Permutation| p@)
}

/// `a` comes before `b` in lexicographic order; a proper prefix comes first.
pub open spec fn lex_lt(a: Seq<u8>, b: Seq<u8>) -> bool {
    exists|k: int| #[trigger] diverge_at(a, b, k)
}

/// `a` and `b` agree before index `k`, and at `k` the first one ends or holds
/// the smaller byte.
pub open spec fn diverge_at(a: Seq<u8>, b: Seq<u8>, k: int) -> bool {
    &&& 0 <= k <= a.len()
    &&& k < b.len()
    &&& forall|i: int| 0 <= i < k ==> a[i] == b[i]
    &&& (k < a.len() ==> a[k] < b[k])
}

/// Every row comes strictly before each later row.
pub open spec fn strictly_sorted(s: Seq<Seq<u8>>) -> bool {
    forall|i: int, j: int| 0 <= i < j < s.len() ==> lex_lt(#[trigger] s[i], #[trigger] s[j])
}

/// Both sequences hold the same rows, whatever their order and number.
pub open spec fn same_members(s: Seq<Seq<u8>>, t: Seq<Seq<u8>>) -> bool {
    forall|r: Seq<u8>|
        #![trigger s.contains(r)]
        #![trigger t.contains(r)]
        s.contains(r) <==> t.contains(r)
}

/// `t` lists the rows of `s` once each, in increasing order.
pub open spec fn is_listing_of(t: Seq<Seq<u8>>, s: Seq<Seq<u8>>) -> bool {
    strictly_sorted(t) && same_members(t, s)
}

/// No row comes before itself.
pub proof fn lemma_lex_irreflexive(a: Seq<u8>)
    ensures
        !lex_lt(a, a),
{
    assert forall|k: int| !diverge_at(a, a, k) by {}
}

/// The order is transitive.
pub proof fn lemma_lex_transitive(a: Seq<u8>, b: Seq<u8>, c: Seq<u8>)
    requires
        lex_lt(a, b),
        lex_lt(b, c),
    ensures
        lex_lt(a, c),
{
    let k1 = choose|k: int| diverge_at(a, b, k);
    let k2 = choose|k: int| diverge_at(b, c, k);
    let k = if k1 <= k2 { k1 } else { k2 };
    assert(diverge_at(a, c, k));
}

/// Of two rows at most one comes before the other.
pub proof fn lemma_lex_asymmetric(a: Seq<u8>, b: Seq<u8>)
    requires
        lex_lt(a, b),
    ensures
        !lex_lt(b, a),
{
    if lex_lt(b, a) {
        lemma_lex_transitive(a, b, a);
        lemma_lex_irreflexive(a);
    }
}

/// The outcome of comparing two rows.
#[derive(Clone, Copy, Debug, PartialEq, Eq, Structural)]
pub enum RowOrder {
    /// The first row comes first.
    Less,
    /// The rows are equal.
    Equal,
    /// The second row comes first.
    Greater,
}

/// Compares two rows lexicographically.
pub fn compare_rows(a: &Permutation, b: &Permutation) -> (o: RowOrder)
    ensures
        o == RowOrder::Less <==> lex_lt(a@, b@),
        o == RowOrder::Equal <==> a@ == b@,
        o == RowOrder::Greater <==> lex_lt(b@, a@),
{
    let mut i: usize = 0;
    while i < a.len() && i < b.len()
        invariant
            i <= a.len(),
            i <= b.len(),
            forall|k: int| 0 <= k < i ==> a@[k] == b@[k],
        decreases a.len() - i,
    {
        if a[i] < b[i] {
            proof {
                assert(diverge_at(a@, b@, i as int));
                lemma_lex_asymmetric(a@, b@);
            }
            return RowOrder::Less;
        }
        if a[i] > b[i] {
            proof {
                assert(diverge_at(b@, a@, i as int));
                lemma_lex_asymmetric(b@, a@);
            }
            return RowOrder::Greater;
        }
        i += 1;
    }
    if i < b.len() {
        proof {
            assert(diverge_at(a@, b@, i as int));
            lemma_lex_asymmetric(a@, b@);
        }
        RowOrder::Less
    } else if i < a.len() {
        proof {
            assert(diverge_at(b@, a@, i as int));
            lemma_lex_asymmetric(b@, a@);
        }
        RowOrder::Greater
    } else {
        proof {
            assert(a@ =~= b@);
            lemma_lex_irreflexive(a@);
        }
        RowOrder::Equal
    }
}

/// A joint state has one listing only: two increasing listings of the same
/// rows are the same sequence.
pub proof fn lemma_listing_unique(s: Seq<Seq<u8>>, t: Seq<Seq<u8>>)
    requires
        strictly_sorted(s),
        strictly_sorted(t),
        same_members(s, t),
    ensures
        s == t,
    decreases s.len(),
{
    if s.len() == 0 {
        if t.len() > 0 {
            assert(t.contains(t[0]));
            assert(s.contains(t[0]));
        }
        assert(s =~= t);
    } else if t.len() == 0 {
        assert(s.contains(s[0]));
        assert(t.contains(s[0]));
    } else {
        let a = s.last();
        let b = t.last();
        assert(s.contains(a));
        assert(t.contains(b));
        assert(t.contains(a));
        assert(s.contains(b));
        let ia = choose|i: int| 0 <= i < t.len() && t[i] == a;
        let ib = choose|i: int| 0 <= i < s.len() && s[i] == b;
        if a != b {
            assert(ia < t.len() - 1);
            assert(ib < s.len() - 1);
            assert(lex_lt(t[ia], t[t.len() - 1]));
            assert(lex_lt(s[ib], s[s.len() - 1]));
            lemma_lex_asymmetric(a, b);
        }
        let s1 = s.drop_last();
        let t1 = t.drop_last();
        assert forall|r: Seq<u8>| s1.contains(r) <==> t1.contains(r) by {
            if s1.contains(r) {
                let i = choose|i: int| 0 <= i < s1.len() && s1[i] == r;
                assert(s[i] == r);
                assert(lex_lt(s[i], s[s.len() - 1]));
                assert(s.contains(r));
                assert(t.contains(r));
                let j = choose|j: int| 0 <= j < t.len() && t[j] == r;
                if j == t.len() - 1 {
                    lemma_lex_irreflexive(a);
                }
                assert(t1[j] == r);
            }
            if t1.contains(r) {
                let i = choose|i: int| 0 <= i < t1.len() && t1[i] == r;
                assert(t[i] == r);
                assert(lex_lt(t[i], t[t.len() - 1]));
                assert(t.contains(r));
                assert(s.contains(r));
                let j = choose|j: int| 0 <= j < s.len() && s[j] == r;
                if j == s.len() - 1 {
                    lemma_lex_irreflexive(a);
                }
                assert(s1[j] == r);
            }
        }
        assert(strictly_sorted(s1)) by {
            assert forall|i: int, j: int| 0 <= i < j < s1.len() implies lex_lt(
                #[trigger] s1[i],
                #[trigger] s1[j],
            ) by {
                assert(lex_lt(s[i], s[j]));
            }
        }
        assert(strictly_sorted(t1)) by {
            assert forall|i: int, j: int| 0 <= i < j < t1.len() implies lex_lt(
                #[trigger] t1[i],
                #[trigger] t1[j],
            ) by {
                assert(lex_lt(t[i], t[j]));
            }
        }
        lemma_listing_unique(s1, t1);
        assert(s =~= s1.push(a));
        assert(t =~= t1.push(b));
    }
}

/// Puts a row into an increasing listing, unless it is there already.
pub fn insert_sorted(state: &mut State, row: Permutation)
    requires
        strictly_sorted(rows(*old(state))),
    ensures
        strictly_sorted(rows(*final(state))),
        forall|r: Seq<u8>|
            #![trigger rows(*final(state)).contains(r)]
            rows(*final(state)).contains(r) <==> (rows(*old(state)).contains(r) || r == row@),
        final(state).len() == old(state).len() + (if rows(*old(state)).contains(row@) {
            0int
        } else {
            1int
        }),
{
    let ghost before = rows(*state);
    let mut k: usize = state.len();
    while k > 0
        invariant
            k <= state.len(),
            *state == *old(state),
            before == rows(*state),
            strictly_sorted(before),
            forall|j: int| k <= j < state.len() ==> lex_lt(row@, #[trigger] before[j]),
        ensures
            k > 0 ==> lex_lt(before[k - 1], row@),
        decreases k,
    {
        let o = compare_rows(&state[k - 1], &row);
        match o {
            RowOrder::Equal => {
                proof {
                    assert(before[k - 1] == row@);
                    assert(before.contains(row@));
                }
                return ;
            },
            RowOrder::Less => {
                break ;
            },
            RowOrder::Greater => {
                k -= 1;
            },
        }
    }
    proof {
        assert(forall|j: int| 0 <= j < k ==> lex_lt(#[trigger] before[j], row@)) by {
            if k > 0 {
                assert(lex_lt(before[k - 1], row@));
                assert forall|j: int| 0 <= j < k implies lex_lt(#[trigger] before[j], row@) by {
                    if j < k - 1 {
                        assert(lex_lt(before[j], before[k - 1]));
                        lemma_lex_transitive(before[j], before[k - 1], row@);
                    }
                }
            }
        }
        assert(!before.contains(row@)) by {
            if before.contains(row@) {
                let j = choose|j: int| 0 <= j < before.len() && before[j] == row@;
                lemma_lex_irreflexive(row@);
            }
        }
    }
    let ghost row_view = row@;
    state.insert(k, row);
    proof {
        let after = rows(*state);
        assert(after =~= before.insert(k as int, row_view));
        assert forall|i: int, j: int| 0 <= i < j < after.len() implies lex_lt(
            #[trigger] after[i],
            #[trigger] after[j],
        ) by {
            if j < k {
                assert(lex_lt(before[i], before[j]));
            } else if j == k {
            } else if i < k {
                assert(lex_lt(before[i], before[j - 1]));
            } else if i == k {
            } else {
                assert(lex_lt(before[i - 1], before[j - 1]));
            }
        }
        assert forall|r: Seq<u8>| after.contains(r) <==> (before.contains(r) || r == row_view) by {
            if after.contains(r) {
                let i = choose|i: int| 0 <= i < after.len() && after[i] == r;
                if i < k {
                    assert(before[i] == r);
                } else if i > k {
                    assert(before[i - 1] == r);
                }
            }
            if before.contains(r) {
                let i = choose|i: int| 0 <= i < before.len() && before[i] == r;
                if i < k {
                    assert(after[i] == r);
                } else {
                    assert(after[i + 1] == r);
                }
            }
            if r == row_view {
                assert(after[k as int] == r);
            }
        }
    }
}

/// Having the same rows is transitive.
pub proof fn lemma_members_chain(a: Seq<Seq<u8>>, b: Seq<Seq<u8>>, c: Seq<Seq<u8>>)
    requires
        same_members(a, b),
        same_members(b, c),
    ensures
        same_members(a, c),
{
    assert forall|r: Seq<u8>| a.contains(r) <==> c.contains(r) by {
        assert(a.contains(r) <==> b.contains(r));
        assert(b.contains(r) <==> c.contains(r));
    }
}

/// Two rows that agree before `k` are equal, or one comes before the other.
proof fn lemma_lex_total_from(a: Seq<u8>, b: Seq<u8>, k: int)
    requires
        0 <= k <= a.len(),
        k <= b.len(),
        forall|i: int| 0 <= i < k ==> a[i] == b[i],
    ensures
        a == b || lex_lt(a, b) || lex_lt(b, a),
    decreases a.len() - k,
{
    if k == a.len() && k == b.len() {
        assert(a =~= b);
    } else if k == a.len() {
        assert(diverge_at(a, b, k));
    } else if k == b.len() {
        assert(diverge_at(b, a, k));
    } else if a[k] < b[k] {
        assert(diverge_at(a, b, k));
    } else if a[k] > b[k] {
        assert(diverge_at(b, a, k));
    } else {
        lemma_lex_total_from(a, b, k + 1);
    }
}

/// Of two different rows one comes before the other.
pub proof fn lemma_lex_total(a: Seq<u8>, b: Seq<u8>)
    ensures
        a == b || lex_lt(a, b) || lex_lt(b, a),
{
    lemma_lex_total_from(a, b, 0);
}

/// A row put into an increasing listing, unless it is there already.
pub open spec fn insert_row(t: Seq<Seq<u8>>, r: Seq<u8>) -> Seq<Seq<u8>>
    decreases t.len(),
{
    if t.len() == 0 {
        seq![r]
    } else if t.last() == r {
        t
    } else if lex_lt(t.last(), r) {
        t.push(r)
    } else {
        insert_row(t.drop_last(), r).push(t.last())
    }
}

/// The rows of a list, each once, in increasing order.
pub open spec fn listing(s: Seq<Seq<u8>>) -> Seq<Seq<u8>>
    decreases s.len(),
{
    if s.len() == 0 {
        Seq::empty()
    } else {
        insert_row(listing(s.drop_last()), s.last())
    }
}

/// Putting a row into an increasing listing keeps it increasing and adds
/// that row and no other.
pub proof fn lemma_insert_row(t: Seq<Seq<u8>>, r: Seq<u8>)
    requires
        strictly_sorted(t),
    ensures
        strictly_sorted(insert_row(t, r)),
        forall|x: Seq<u8>|
            #![trigger insert_row(t, r).contains(x)]
            insert_row(t, r).contains(x) <==> (t.contains(x) || x == r),
    decreases t.len(),
{
    let out = insert_row(t, r);
    if t.len() == 0 {
        assert forall|x: Seq<u8>| #![trigger out.contains(x)] out.contains(x) <==> (t.contains(x)
            || x == r) by {
            if x == r {
                assert(out[0] == x);
            }
        }
    } else if t.last() == r {
        assert(t.contains(r)) by {
            assert(t[t.len() - 1] == r);
        }
    } else if lex_lt(t.last(), r) {
        assert forall|i: int, j: int| 0 <= i < j < out.len() implies lex_lt(
            #[trigger] out[i],
            #[trigger] out[j],
        ) by {
            if j < t.len() {
                assert(lex_lt(t[i], t[j]));
            } else if i < t.len() - 1 {
                assert(lex_lt(t[i], t[t.len() - 1]));
                lemma_lex_transitive(t[i], t.last(), r);
            }
        }
        assert forall|x: Seq<u8>| #![trigger out.contains(x)] out.contains(x) <==> (t.contains(x)
            || x == r) by {
            vstd::seq_lib::lemma_seq_contains_after_push(t, r, x);
        }
    } else {
        let head = t.drop_last();
        let last = t.last();
        lemma_lex_total(last, r);
        assert(lex_lt(r, last));
        assert(strictly_sorted(head)) by {
            assert forall|i: int, j: int| 0 <= i < j < head.len() implies lex_lt(
                #[trigger] head[i],
                #[trigger] head[j],
            ) by {
                assert(lex_lt(t[i], t[j]));
            }
        }
        lemma_insert_row(head, r);
        let mid = insert_row(head, r);
        assert(out == mid.push(last));
        assert forall|i: int, j: int| 0 <= i < j < out.len() implies lex_lt(
            #[trigger] out[i],
            #[trigger] out[j],
        ) by {
            if j < mid.len() {
                assert(lex_lt(mid[i], mid[j]));
            } else {
                assert(mid.contains(mid[i]));
                if mid[i] == r {
                } else {
                    assert(head.contains(mid[i]));
                    let k = choose|k: int| 0 <= k < head.len() && head[k] == mid[i];
                    assert(lex_lt(t[k], t[t.len() - 1]));
                }
            }
        }
        assert forall|x: Seq<u8>| #![trigger out.contains(x)] out.contains(x) <==> (t.contains(x)
            || x == r) by {
            vstd::seq_lib::lemma_seq_contains_after_push(mid, last, x);
            assert(mid.contains(x) <==> (head.contains(x) || x == r));
            assert(t =~= head.push(last));
            vstd::seq_lib::lemma_seq_contains_after_push(head, last, x);
        }
    }
}

/// Every list of rows has its listing.
pub proof fn lemma_listing(s: Seq<Seq<u8>>)
    ensures
        is_listing_of(listing(s), s),
    decreases s.len(),
{
    if s.len() == 0 {
        assert forall|r: Seq<u8>| listing(s).contains(r) <==> s.contains(r) by {}
    } else {
        let head = s.drop_last();
        lemma_listing(head);
        lemma_insert_row(listing(head), s.last());
        assert forall|r: Seq<u8>| listing(s).contains(r) <==> s.contains(r) by {
            assert(s =~= head.push(s.last()));
            vstd::seq_lib::lemma_seq_contains_after_push(head, s.last(), r);
            assert(listing(head).contains(r) <==> head.contains(r));
        }
    }
}

/// A list has the listing that lists it.
pub proof fn lemma_listing_is(t: Seq<Seq<u8>>, s: Seq<Seq<u8>>)
    requires
        is_listing_of(t, s),
    ensures
        t == listing(s),
{
    lemma_listing(s);
    assert(same_members(s, listing(s))) by {
        assert forall|r: Seq<u8>| s.contains(r) <==> listing(s).contains(r) by {}
    }
    lemma_members_chain(t, s, listing(s));
    lemma_listing_unique(t, listing(s));
}

/// Lists with the same rows have the same listing.
pub proof fn lemma_listing_of_members(s: Seq<Seq<u8>>, t: Seq<Seq<u8>>)
    requires
        same_members(s, t),
    ensures
        listing(s) == listing(t),
{
    lemma_listing(s);
    lemma_members_chain(listing(s), s, t);
    lemma_listing_is(listing(s), t);
}

} // verus!
