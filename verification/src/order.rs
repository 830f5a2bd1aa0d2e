//! Stable ordering of texture descriptors by their `store0` offset.

use crate::descriptor::TextureDescriptor;
use vstd::prelude::*;

verus! {

/// The offsets of `s` never decrease.
pub open spec fn offsets_ascending(s: Seq<TextureDescriptor>) -> bool {
    forall|i: int, j: int| 0 <= i <= j < s.len() ==> s[i].store0_offset <= s[j].store0_offset
}

/// The descriptors of `s` at offset `k`, in their order in `s`.
pub open spec fn at_offset(s: Seq<TextureDescriptor>, k: u64) -> Seq<TextureDescriptor>
    decreases s.len(),
{
    if s.len() == 0 {
        s
    } else if s.last().store0_offset == k {
        at_offset(s.drop_last(), k).push(s.last())
    } else {
        at_offset(s.drop_last(), k)
    }
}

/// `r` is `s` sorted by offset, where descriptors at one offset keep the
/// order they had in `s`.
pub open spec fn is_stable_sort_by_offset(r: Seq<TextureDescriptor>, s: Seq<TextureDescriptor>) -> bool {
    &&& r.len() == s.len()
    &&& offsets_ascending(r)
    &&& forall|k: u64| #[trigger] at_offset(r, k) == at_offset(s, k)
}

/// Selecting one offset commutes with concatenation.
pub proof fn lemma_at_offset_append(a: Seq<TextureDescriptor>, b: Seq<TextureDescriptor>, k: u64)
    ensures
        at_offset(a + b, k) == at_offset(a, k) + at_offset(b, k),
    decreases b.len(),
{
    if b.len() == 0 {
        assert(a + b =~= a);
        assert(at_offset(b, k) =~= Seq::<TextureDescriptor>::empty());
        assert(at_offset(a, k) + at_offset(b, k) =~= at_offset(a, k));
    } else {
        assert((a + b).drop_last() =~= a + b.drop_last());
        assert((a + b).last() == b.last());
        lemma_at_offset_append(a, b.drop_last(), k);
        if b.last().store0_offset == k {
            assert(at_offset(a, k) + at_offset(b.drop_last(), k).push(b.last()) =~= (at_offset(
                a,
                k,
            ) + at_offset(b.drop_last(), k)).push(b.last()));
        }
    }
}

/// No descriptor of `s` is at offset `k`: selecting `k` gives nothing.
pub proof fn lemma_at_offset_absent(s: Seq<TextureDescriptor>, k: u64)
    requires
        forall|i: int| 0 <= i < s.len() ==> (#[trigger] s[i]).store0_offset != k,
    ensures
        at_offset(s, k) == Seq::<TextureDescriptor>::empty(),
    decreases s.len(),
{
    if s.len() > 0 {
        lemma_at_offset_absent(s.drop_last(), k);
    }
}

proof fn lemma_at_offset_witness(s: Seq<TextureDescriptor>, k: u64)
    requires
        at_offset(s, k).len() > 0,
    ensures
        exists|i: int| 0 <= i < s.len() && (#[trigger] s[i]).store0_offset == k,
    decreases s.len(),
{
    if s.last().store0_offset == k {
        assert(s[s.len() - 1].store0_offset == k);
    } else {
        lemma_at_offset_witness(s.drop_last(), k);
        let i = choose|i: int|
            0 <= i < s.drop_last().len() && (#[trigger] s.drop_last()[i]).store0_offset == k;
        assert(s[i] == s.drop_last()[i]);
    }
}

/// Two offset-ascending sequences that agree at every offset are equal; so
/// the stable sort of a sequence is unique.
pub proof fn lemma_ordered_by_offset_unique(r1: Seq<TextureDescriptor>, r2: Seq<TextureDescriptor>)
    requires
        offsets_ascending(r1),
        offsets_ascending(r2),
        forall|k: u64| #[trigger] at_offset(r1, k) == at_offset(r2, k),
    ensures
        r1 == r2,
    decreases r1.len() + r2.len(),
{
    if r1.len() == 0 && r2.len() == 0 {
        assert(r1 =~= r2);
    } else if r1.len() == 0 {
        let k = r2.last().store0_offset;
        assert(at_offset(r2, k).len() > 0);
        assert(at_offset(r1, k).len() == 0);
    } else if r2.len() == 0 {
        let k = r1.last().store0_offset;
        assert(at_offset(r1, k).len() > 0);
        assert(at_offset(r2, k).len() == 0);
    } else {
        let x1 = r1.last();
        let x2 = r2.last();
        let k1 = x1.store0_offset;
        let k2 = x2.store0_offset;
        assert(at_offset(r1, k1).len() > 0);
        assert(at_offset(r2, k1).len() > 0);
        lemma_at_offset_witness(r2, k1);
        let i2 = choose|i: int| 0 <= i < r2.len() && (#[trigger] r2[i]).store0_offset == k1;
        assert(r2[i2].store0_offset <= r2[r2.len() - 1].store0_offset);
        assert(at_offset(r2, k2).len() > 0);
        assert(at_offset(r1, k2).len() > 0);
        lemma_at_offset_witness(r1, k2);
        let i1 = choose|i: int| 0 <= i < r1.len() && (#[trigger] r1[i]).store0_offset == k2;
        assert(r1[i1].store0_offset <= r1[r1.len() - 1].store0_offset);
        assert(k1 == k2);
        assert(at_offset(r1, k1).last() == x1);
        assert(at_offset(r2, k1).last() == x2);
        let d1 = r1.drop_last();
        let d2 = r2.drop_last();
        assert forall|k: u64| #[trigger] at_offset(d1, k) == at_offset(d2, k) by {
            if k == k1 {
                assert(at_offset(d1, k) == at_offset(r1, k).drop_last());
                assert(at_offset(d2, k) == at_offset(r2, k).drop_last());
            } else {
                assert(at_offset(d1, k) == at_offset(r1, k));
                assert(at_offset(d2, k) == at_offset(r2, k));
            }
        }
        lemma_ordered_by_offset_unique(d1, d2);
        assert(r1 =~= d1.push(x1));
        assert(r2 =~= d2.push(x2));
    }
}

/// A sequence has exactly one stable sort by offset.
pub proof fn lemma_stable_sort_unique(
    r1: Seq<TextureDescriptor>,
    r2: Seq<TextureDescriptor>,
    s: Seq<TextureDescriptor>,
)
    requires
        is_stable_sort_by_offset(r1, s),
        is_stable_sort_by_offset(r2, s),
    ensures
        r1 == r2,
{
    assert forall|k: u64| #[trigger] at_offset(r1, k) == at_offset(r2, k) by {
        assert(at_offset(r1, k) == at_offset(s, k));
        assert(at_offset(r2, k) == at_offset(s, k));
    }
    lemma_ordered_by_offset_unique(r1, r2);
}

proof fn lemma_count_at_offset(t: Seq<TextureDescriptor>, x: TextureDescriptor)
    ensures
        t.to_multiset().count(x) == at_offset(t, x.store0_offset).to_multiset().count(x),
    decreases t.len(),
{
    broadcast use vstd::seq_lib::group_to_multiset_ensures;

    if t.len() == 0 {
        assert(at_offset(t, x.store0_offset) == t);
    } else {
        let d = t.drop_last();
        lemma_count_at_offset(d, x);
        assert(t == d.push(t.last()));
    }
}

/// A stable sort neither drops nor duplicates a descriptor: it holds the
/// same descriptors, each as often, as the sequence it sorts.
pub proof fn lemma_stable_sort_permutes(r: Seq<TextureDescriptor>, s: Seq<TextureDescriptor>)
    requires
        is_stable_sort_by_offset(r, s),
    ensures
        r.to_multiset() == s.to_multiset(),
{
    assert forall|x: TextureDescriptor|
        r.to_multiset().count(x) == s.to_multiset().count(x) by {
        lemma_count_at_offset(r, x);
        lemma_count_at_offset(s, x);
        assert(at_offset(r, x.store0_offset) == at_offset(s, x.store0_offset));
    }
    assert(r.to_multiset() =~= s.to_multiset());
}

proof fn lemma_take_push(s: Seq<TextureDescriptor>, i: int)
    requires
        0 <= i < s.len(),
    ensures
        s.take(i + 1) == s.take(i).push(s[i]),
        s.take(i + 1).drop_last() == s.take(i),
        s.take(i + 1).last() == s[i],
{
    assert(s.take(i + 1) =~= s.take(i).push(s[i]));
}

/// Merges two offset-sorted runs; at equal offsets the descriptors of `a`
/// come first.
fn merge(a: &Vec<TextureDescriptor>, b: &Vec<TextureDescriptor>) -> (r: Vec<TextureDescriptor>)
    requires
        offsets_ascending(a@),
        offsets_ascending(b@),
    ensures
        r@.len() == a@.len() + b@.len(),
        offsets_ascending(r@),
        forall|k: u64| #[trigger] at_offset(r@, k) == at_offset(a@, k) + at_offset(b@, k),
{
    let mut out: Vec<TextureDescriptor> = Vec::new();
    let mut i: usize = 0;
    let mut j: usize = 0;
    while i < a.len() || j < b.len()
        invariant
            i <= a@.len(),
            j <= b@.len(),
            out@.len() == i + j,
            offsets_ascending(a@),
            offsets_ascending(b@),
            offsets_ascending(out@),
            forall|p: int, q: int|
                0 <= p < out@.len() && i <= q < a@.len() ==> out@[p].store0_offset
                    <= a@[q].store0_offset,
            forall|p: int, q: int|
                0 <= p < out@.len() && j <= q < b@.len() ==> out@[p].store0_offset
                    <= b@[q].store0_offset,
            forall|p: int, q: int|
                0 <= p < j && i <= q < a@.len() ==> b@[p].store0_offset < a@[q].store0_offset,
            forall|k: u64|
                #[trigger] at_offset(out@, k) == at_offset(a@.take(i as int), k) + at_offset(
                    b@.take(j as int),
                    k,
                ),
        decreases a@.len() + b@.len() - i - j,
    {
        let ghost old_out = out@;
        if j >= b.len() || (i < a.len() && a[i].store0_offset <= b[j].store0_offset) {
            let x = a[i];
            out.push(x);
            proof {
                lemma_take_push(a@, i as int);
                assert(out@.drop_last() == old_out);
                assert forall|k: u64| #[trigger]
                    at_offset(out@, k) == at_offset(a@.take(i + 1), k) + at_offset(
                        b@.take(j as int),
                        k,
                    ) by {
                    assert(at_offset(old_out, k) == at_offset(a@.take(i as int), k) + at_offset(
                        b@.take(j as int),
                        k,
                    ));
                    assert(out@.last() == x);
                    if x.store0_offset == k {
                        assert(at_offset(out@, k) == at_offset(old_out, k).push(x));
                        assert(at_offset(a@.take(i + 1), k) == at_offset(a@.take(i as int), k).push(x));
                        assert forall|p: int| 0 <= p < b@.take(j as int).len() implies (
                        #[trigger] b@.take(j as int)[p]).store0_offset != k by {
                            assert(b@.take(j as int)[p] == b@[p]);
                        }
                        lemma_at_offset_absent(b@.take(j as int), k);
                        assert(at_offset(b@.take(j as int), k) =~= Seq::<
                            TextureDescriptor,
                        >::empty());
                        assert(at_offset(a@.take(i as int), k) + at_offset(b@.take(j as int), k)
                            =~= at_offset(a@.take(i as int), k));
                        assert(at_offset(a@.take(i as int), k).push(x) + at_offset(
                            b@.take(j as int),
                            k,
                        ) =~= at_offset(a@.take(i as int), k).push(x));
                    }
                }
            }
            i = i + 1;
        } else {
            let x = b[j];
            out.push(x);
            proof {
                lemma_take_push(b@, j as int);
                assert(out@.drop_last() == old_out);
                assert forall|k: u64| #[trigger]
                    at_offset(out@, k) == at_offset(a@.take(i as int), k) + at_offset(
                        b@.take(j + 1),
                        k,
                    ) by {
                    assert(at_offset(old_out, k) == at_offset(a@.take(i as int), k) + at_offset(
                        b@.take(j as int),
                        k,
                    ));
                    assert(out@.last() == x);
                    if x.store0_offset == k {
                        assert(at_offset(out@, k) == at_offset(old_out, k).push(x));
                        assert(at_offset(b@.take(j + 1), k) == at_offset(b@.take(j as int), k).push(x));
                        assert((at_offset(a@.take(i as int), k) + at_offset(b@.take(j as int), k)).push(
                            x,
                        ) =~= at_offset(a@.take(i as int), k) + at_offset(b@.take(j as int), k).push(
                            x,
                        ));
                    }
                }
            }
            j = j + 1;
        }
    }
    proof {
        assert(a@.take(a@.len() as int) =~= a@);
        assert(b@.take(b@.len() as int) =~= b@);
    }
    out
}

/// Sorts descriptors by ascending `store0_offset`, keeping the original
/// order of descriptors at the same offset.
pub fn sort_by_offset(v: Vec<TextureDescriptor>) -> (r: Vec<TextureDescriptor>)
    ensures
        is_stable_sort_by_offset(r@, v@),
    decreases v@.len(),
{
    if v.len() <= 1 {
        proof {
            assert(offsets_ascending(v@));
        }
        return v;
    }
    let ghost whole = v@;
    let mid = v.len() / 2;
    let mut left = v;
    let right = left.split_off(mid);
    proof {
        assert(whole =~= left@ + right@);
    }
    let sorted_left = sort_by_offset(left);
    let sorted_right = sort_by_offset(right);
    let r = merge(&sorted_left, &sorted_right);
    proof {
        assert forall|k: u64| #[trigger] at_offset(r@, k) == at_offset(whole, k) by {
            lemma_at_offset_append(left@, right@, k);
        }
    }
    r
}

} // verus!
