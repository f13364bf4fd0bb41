//! Lexicographic order on byte-string names, and sorting the PDF list by it.
//!
//! The merge stage hands the produced PDFs to the merge tool sorted by file
//! name; this module defines the order and proves an insertion sort against
//! it.

use vstd::prelude::*;
use vstd::multiset::Multiset;

verus! {

/// Byte-wise lexicographic "less than or equal" on names: the order in which
/// produced PDFs are merged.
pub open spec fn lex_le(a: Seq<u8>, b: Seq<u8>) -> bool
    decreases a.len(),
{
    if a.len() == 0 {
        true
    } else if b.len() == 0 {
        false
    } else if a.first() < b.first() {
        true
    } else if a.first() == b.first() {
        lex_le(a.drop_first(), b.drop_first())
    } else {
        false
    }
}

/// Any two names are comparable under `lex_le`.
pub proof fn lemma_lex_le_total(a: Seq<u8>, b: Seq<u8>)
    ensures
        lex_le(a, b) || lex_le(b, a),
    decreases a.len(),
{
    if a.len() > 0 && b.len() > 0 && a.first() == b.first() {
        lemma_lex_le_total(a.drop_first(), b.drop_first());
    }
}

/// `lex_le` is transitive.
pub proof fn lemma_lex_le_trans(a: Seq<u8>, b: Seq<u8>, c: Seq<u8>)
    requires
        lex_le(a, b),
        lex_le(b, c),
    ensures
        lex_le(a, c),
    decreases a.len(),
{
    if a.len() > 0 && b.len() > 0 && c.len() > 0 && a.first() == b.first() && b.first()
        == c.first() {
        lemma_lex_le_trans(a.drop_first(), b.drop_first(), c.drop_first());
    }
}

/// Whether `a` comes no later than `b` in lexicographic byte order.
pub fn lex_le_bytes(a: &Vec<u8>, b: &Vec<u8>) -> (r: bool)
    ensures
        r == lex_le(a@, b@),
{
    let mut k: usize = 0;
    assert(a@.skip(0) =~= a@);
    assert(b@.skip(0) =~= b@);
    while k < a.len() && k < b.len()
        invariant
            k <= a@.len(),
            k <= b@.len(),
            lex_le(a@, b@) == lex_le(a@.skip(k as int), b@.skip(k as int)),
        decreases a@.len() - k,
    {
        if a[k] < b[k] {
            assert(a@.skip(k as int).first() == a@[k as int]);
            return true;
        }
        if a[k] > b[k] {
            assert(a@.skip(k as int).first() == a@[k as int]);
            return false;
        }
        assert(a@.skip(k as int).drop_first() =~= a@.skip(k + 1));
        assert(b@.skip(k as int).drop_first() =~= b@.skip(k + 1));
        k = k + 1;
    }
    let r = a.len() <= b.len();
    proof {
        if a@.len() <= k {
            assert(a@.skip(k as int).len() == 0);
        } else {
            assert(b@.skip(k as int).len() == 0);
            assert(a@.skip(k as int).len() > 0);
        }
    }
    r
}

/// The names of `s`, in order, each taken as its byte string.
pub open spec fn views_of(s: Seq<Vec<u8>>) -> Seq<Seq<u8>> {
    Seq::new(s.len(), |i: int| s[i]@)
}

/// Whether the names of `s` are in lexicographic order.
pub open spec fn sorted_lex(s: Seq<Vec<u8>>) -> bool {
    forall|i: int, j: int| 0 <= i < j < s.len() ==> lex_le(s[i]@, s[j]@)
}

/// Inserts `x` into the sorted list `out`, keeping it sorted; the contents
/// grow by exactly `x`.
fn insert_sorted(out: &mut Vec<Vec<u8>>, x: Vec<u8>)
    requires
        sorted_lex(old(out)@),
    ensures
        sorted_lex(final(out)@),
        views_of(final(out)@).to_multiset() == views_of(old(out)@).to_multiset().insert(x@),
        final(out)@.len() == old(out)@.len() + 1,
{
    let ghost x_view = x@;
    let mut p: usize = 0;
    while p < out.len() && lex_le_bytes(&out[p], &x)
        invariant
            p <= out@.len(),
            sorted_lex(out@),
            out@ == old(out)@,
            forall|m: int| 0 <= m < p ==> lex_le(out@[m]@, x@),
        decreases out@.len() - p,
    {
        p = p + 1;
    }
    proof {
        if p < out@.len() {
            lemma_lex_le_total(out@[p as int]@, x@);
        }
    }
    let ghost pre = out@;
    out.insert(p, x);
    proof {
        assert forall|i: int, j: int| 0 <= i < j < out@.len() implies lex_le(
            out@[i]@,
            out@[j]@,
        ) by {
            if i == p && j > p + 1 {
                lemma_lex_le_trans(x_view, pre[p as int]@, pre[j - 1]@);
            }
        }
        assert(views_of(out@) =~= views_of(pre).insert(p as int, x_view));
        vstd::seq_lib::to_multiset_insert(views_of(pre), p as int, x_view);
    }
}

/// Sorts the given names lexicographically: the result holds exactly the
/// same names, in `lex_le` order.
pub fn sorted_names(names: Vec<Vec<u8>>) -> (r: Vec<Vec<u8>>)
    ensures
        sorted_lex(r@),
        views_of(r@).to_multiset() == views_of(names@).to_multiset(),
        r@.len() == names@.len(),
{
    broadcast use vstd::seq_lib::group_to_multiset_ensures;

    let mut rest = names;
    let mut out: Vec<Vec<u8>> = Vec::new();
    proof {
        assert(views_of(out@).to_multiset().add(views_of(rest@).to_multiset()) =~= views_of(
            names@,
        ).to_multiset());
    }
    while rest.len() > 0
        invariant
            sorted_lex(out@),
            views_of(out@).to_multiset().add(views_of(rest@).to_multiset()) == views_of(
                names@,
            ).to_multiset(),
            out@.len() + rest@.len() == names@.len(),
        decreases rest@.len(),
    {
        let ghost pre_rest = rest@;
        let ghost pre_out = out@;
        let x = rest.pop().unwrap();
        proof {
            assert(pre_rest =~= rest@.push(x));
            assert(views_of(pre_rest) =~= views_of(rest@).push(x@));
            vstd::seq_lib::to_multiset_build(views_of(rest@), x@);
        }
        insert_sorted(&mut out, x);
        proof {
            assert(views_of(out@).to_multiset().add(views_of(rest@).to_multiset())
                =~= views_of(pre_out).to_multiset().add(views_of(pre_rest).to_multiset()));
        }
    }
    proof {
        assert(views_of(rest@).to_multiset() =~= Multiset::<Seq<u8>>::empty());
        assert(views_of(out@).to_multiset() =~= views_of(names@).to_multiset());
    }
    out
}

} // verus!
