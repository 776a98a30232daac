//! Sorted, duplicate-free index sequences: the representation of every open
//! set in this crate.

use vstd::prelude::*;

verus! {

/// `s` is sorted in strictly increasing order (so it holds no repeats).
pub open spec fn strictly_sorted(s: Seq<usize>) -> bool {
    forall|a: int, b: int| 0 <= a < b < s.len() ==> s[a] < s[b]
}

/// The elements that a front-to-back merge walk finds common to `a` and `b`:
/// equal heads are kept and both advance; otherwise the smaller head is dropped.
/// On strictly sorted inputs this is their sorted intersection
/// (`lemma_common_merge_sorted`).
pub open spec fn common_merge(a: Seq<usize>, b: Seq<usize>) -> Seq<usize>
    decreases a.len() + b.len(),
{
    if a.len() == 0 || b.len() == 0 {
        Seq::empty()
    } else if a[0] == b[0] {
        seq![a[0]] + common_merge(a.drop_first(), b.drop_first())
    } else if a[0] < b[0] {
        common_merge(a.drop_first(), b)
    } else {
        common_merge(a, b.drop_first())
    }
}

/// The strictly sorted sequence holding exactly the elements of `s`
/// (unique by `lemma_sorted_unique`).
pub open spec fn normalized(s: Seq<usize>) -> Seq<usize> {
    choose|r: Seq<usize>| strictly_sorted(r) && r.to_set() == s.to_set()
}

/// Every element that the merge walk keeps occurs in both inputs.
pub proof fn lemma_common_merge_members(a: Seq<usize>, b: Seq<usize>)
    ensures
        forall|t: int|
            0 <= t < common_merge(a, b).len() ==> a.contains(#[trigger] common_merge(a, b)[t])
                && b.contains(common_merge(a, b)[t]),
    decreases a.len() + b.len(),
{
    let m = common_merge(a, b);
    if a.len() == 0 || b.len() == 0 {
    } else if a[0] == b[0] {
        let rest = common_merge(a.drop_first(), b.drop_first());
        lemma_common_merge_members(a.drop_first(), b.drop_first());
        assert forall|t: int| 0 <= t < m.len() implies a.contains(#[trigger] m[t]) && b.contains(
            m[t],
        ) by {
            if t == 0 {
                assert(a[0] == m[0]);
                assert(b[0] == m[0]);
            } else {
                assert(m[t] == rest[t - 1]);
                let y = rest[t - 1];
                assert(a.drop_first().contains(y));
                let wa = choose|w: int| 0 <= w < a.drop_first().len() && a.drop_first()[w] == y;
                assert(a[wa + 1] == y);
                let wb = choose|w: int| 0 <= w < b.drop_first().len() && b.drop_first()[w] == y;
                assert(b[wb + 1] == y);
            }
        }
    } else if a[0] < b[0] {
        lemma_common_merge_members(a.drop_first(), b);
        assert(m == common_merge(a.drop_first(), b));
        assert forall|t: int| 0 <= t < m.len() implies a.contains(#[trigger] m[t]) && b.contains(
            m[t],
        ) by {
            let y = m[t];
            assert(a.drop_first().contains(y));
            let wa = choose|w: int| 0 <= w < a.drop_first().len() && a.drop_first()[w] == y;
            assert(a[wa + 1] == y);
        }
    } else {
        lemma_common_merge_members(a, b.drop_first());
        assert(m == common_merge(a, b.drop_first()));
        assert forall|t: int| 0 <= t < m.len() implies a.contains(#[trigger] m[t]) && b.contains(
            m[t],
        ) by {
            let y = m[t];
            assert(b.drop_first().contains(y));
            let wb = choose|w: int| 0 <= w < b.drop_first().len() && b.drop_first()[w] == y;
            assert(b[wb + 1] == y);
        }
    }
}

/// The merge walk keeps no more elements than either input has.
pub proof fn lemma_common_merge_len(a: Seq<usize>, b: Seq<usize>)
    ensures
        common_merge(a, b).len() <= a.len(),
        common_merge(a, b).len() <= b.len(),
    decreases a.len() + b.len(),
{
    if a.len() == 0 || b.len() == 0 {
    } else if a[0] == b[0] {
        lemma_common_merge_len(a.drop_first(), b.drop_first());
    } else if a[0] < b[0] {
        lemma_common_merge_len(a.drop_first(), b);
    } else {
        lemma_common_merge_len(a, b.drop_first());
    }
}

/// On strictly sorted inputs the merge walk yields their sorted intersection.
pub proof fn lemma_common_merge_sorted(a: Seq<usize>, b: Seq<usize>)
    requires
        strictly_sorted(a),
        strictly_sorted(b),
    ensures
        strictly_sorted(common_merge(a, b)),
        forall|x: usize| #[trigger]
            common_merge(a, b).contains(x) <==> (a.contains(x) && b.contains(x)),
        common_merge(a, b).to_set() == a.to_set().intersect(b.to_set()),
    decreases a.len() + b.len(),
{
    let m = common_merge(a, b);
    lemma_common_merge_members(a, b);
    if a.len() == 0 || b.len() == 0 {
    } else if a[0] == b[0] {
        let rest = common_merge(a.drop_first(), b.drop_first());
        lemma_common_merge_sorted(a.drop_first(), b.drop_first());
        lemma_common_merge_members(a.drop_first(), b.drop_first());
        assert forall|p: int, q: int| 0 <= p < q < m.len() implies m[p] < m[q] by {
            if p == 0 {
                let y = rest[q - 1];
                assert(a.drop_first().contains(y));
                let w = choose|w: int| 0 <= w < a.drop_first().len() && a.drop_first()[w] == y;
                assert(a[w + 1] == y);
            } else {
                assert(m[p] == rest[p - 1]);
                assert(m[q] == rest[q - 1]);
            }
        }
        assert forall|x: usize| a.contains(x) && b.contains(x) implies #[trigger] m.contains(x) by {
            if x == a[0] {
                assert(m[0] == x);
            } else {
                let wa = choose|w: int| 0 <= w < a.len() && a[w] == x;
                let wb = choose|w: int| 0 <= w < b.len() && b[w] == x;
                assert(a.drop_first()[wa - 1] == x);
                assert(b.drop_first()[wb - 1] == x);
                assert(rest.contains(x));
                let wr = choose|w: int| 0 <= w < rest.len() && rest[w] == x;
                assert(m[wr + 1] == x);
            }
        }
    } else if a[0] < b[0] {
        lemma_common_merge_sorted(a.drop_first(), b);
        assert(m == common_merge(a.drop_first(), b));
        assert forall|x: usize| a.contains(x) && b.contains(x) implies #[trigger] m.contains(x) by {
            let wa = choose|w: int| 0 <= w < a.len() && a[w] == x;
            let wb = choose|w: int| 0 <= w < b.len() && b[w] == x;
            if wa == 0 {
                if wb > 0 {
                    assert(b[0] < b[wb]);
                }
            } else {
                assert(a.drop_first()[wa - 1] == x);
            }
        }
    } else {
        lemma_common_merge_sorted(a, b.drop_first());
        assert(m == common_merge(a, b.drop_first()));
        assert forall|x: usize| a.contains(x) && b.contains(x) implies #[trigger] m.contains(x) by {
            let wa = choose|w: int| 0 <= w < a.len() && a[w] == x;
            let wb = choose|w: int| 0 <= w < b.len() && b[w] == x;
            if wb == 0 {
                if wa > 0 {
                    assert(a[0] < a[wa]);
                }
            } else {
                assert(b.drop_first()[wb - 1] == x);
            }
        }
    }
    assert(m.to_set() =~= a.to_set().intersect(b.to_set()));
}

/// Two strictly sorted sequences with the same elements are equal.
pub proof fn lemma_sorted_unique(r1: Seq<usize>, r2: Seq<usize>)
    requires
        strictly_sorted(r1),
        strictly_sorted(r2),
        r1.to_set() == r2.to_set(),
    ensures
        r1 == r2,
    decreases r1.len(),
{
    if r1.len() == 0 {
        if r2.len() > 0 {
            assert(r2.to_set().contains(r2[0]));
        }
        assert(r1 =~= r2);
    } else {
        assert(r1.to_set().contains(r1[0]));
        assert(r2.len() > 0) by {
            if r2.len() == 0 {
                assert(r2.to_set().contains(r1[0]));
            }
        }
        assert(r2.to_set().contains(r2[0]));
        let w2 = choose|w: int| 0 <= w < r2.len() && r2[w] == r1[0];
        let w1 = choose|w: int| 0 <= w < r1.len() && r1[w] == r2[0];
        if w2 > 0 {
            assert(r2[0] < r2[w2]);
            if w1 > 0 {
                assert(r1[0] < r1[w1]);
            }
        }
        assert(r1[0] == r2[0]);
        let t1 = r1.drop_first();
        let t2 = r2.drop_first();
        assert forall|x: usize| t1.to_set().contains(x) implies t2.to_set().contains(x) by {
            let w = choose|w: int| 0 <= w < t1.len() && t1[w] == x;
            assert(r1[w + 1] == x);
            assert(r1.to_set().contains(x));
            let v = choose|v: int| 0 <= v < r2.len() && r2[v] == x;
            assert(r1[0] < r1[w + 1]);
            assert(v != 0);
            assert(t2[v - 1] == x);
        }
        assert forall|x: usize| t2.to_set().contains(x) implies t1.to_set().contains(x) by {
            let w = choose|w: int| 0 <= w < t2.len() && t2[w] == x;
            assert(r2[w + 1] == x);
            assert(r2.to_set().contains(x));
            let v = choose|v: int| 0 <= v < r1.len() && r1[v] == x;
            assert(r2[0] < r2[w + 1]);
            assert(v != 0);
            assert(t1[v - 1] == x);
        }
        assert(t1.to_set() =~= t2.to_set());
        lemma_sorted_unique(t1, t2);
        assert(r1 =~= r2) by {
            assert forall|i: int| 0 <= i < r1.len() implies r1[i] == r2[i] by {
                if i > 0 {
                    assert(r1[i] == t1[i - 1]);
                    assert(r2[i] == t2[i - 1]);
                }
            }
        }
    }
}

/// A strictly sorted sequence is its own normal form.
pub proof fn lemma_normalized_of_sorted(r: Seq<usize>, s: Seq<usize>)
    requires
        strictly_sorted(r),
        r.to_set() == s.to_set(),
    ensures
        normalized(s) == r,
{
    let n = normalized(s);
    assert(strictly_sorted(n) && n.to_set() == s.to_set());
    lemma_sorted_unique(n, r);
}

/// `x` inserted into `r` in order (no change when already present), going
/// front to back.
pub open spec fn insert_in_order(r: Seq<usize>, x: usize) -> Seq<usize>
    decreases r.len(),
{
    if r.len() == 0 {
        seq![x]
    } else if x < r[0] {
        seq![x] + r
    } else if x == r[0] {
        r
    } else {
        seq![r[0]] + insert_in_order(r.drop_first(), x)
    }
}

/// Inserting in order keeps a sequence strictly sorted and adds `x` to its elements.
pub proof fn lemma_insert_in_order(r: Seq<usize>, x: usize)
    requires
        strictly_sorted(r),
    ensures
        strictly_sorted(insert_in_order(r, x)),
        insert_in_order(r, x).to_set() == r.to_set().insert(x),
        forall|i: int| 0 <= i < insert_in_order(r, x).len() ==> (#[trigger] insert_in_order(r, x)[i] == x || r.contains(insert_in_order(r, x)[i])),
    decreases r.len(),
{
    let res = insert_in_order(r, x);
    if r.len() == 0 {
        assert(res.to_set() =~= r.to_set().insert(x)) by {
            assert forall|y: usize| res.to_set().contains(y) <==> r.to_set().insert(x).contains(y) by {
                if res.to_set().contains(y) {
                    let w = choose|w: int| 0 <= w < res.len() && res[w] == y;
                }
                if y == x {
                    assert(res[0] == x);
                }
            }
        }
    } else if x < r[0] {
        assert forall|a: int, b: int| 0 <= a < b < res.len() implies res[a] < res[b] by {
            if a == 0 {
                assert(res[b] == r[b - 1]);
                if b - 1 > 0 {
                    assert(r[0] < r[b - 1]);
                }
            } else {
                assert(res[a] == r[a - 1]);
                assert(res[b] == r[b - 1]);
            }
        }
        assert forall|y: usize| res.to_set().contains(y) <==> r.to_set().insert(x).contains(y) by {
            if res.to_set().contains(y) {
                let w = choose|w: int| 0 <= w < res.len() && res[w] == y;
                if w > 0 {
                    assert(r[w - 1] == y);
                }
            }
            if r.to_set().contains(y) {
                let w = choose|w: int| 0 <= w < r.len() && r[w] == y;
                assert(res[w + 1] == y);
            }
            if y == x {
                assert(res[0] == x);
            }
        }
        assert(res.to_set() =~= r.to_set().insert(x));
        assert forall|i: int| 0 <= i < res.len() implies (#[trigger] res[i] == x || r.contains(res[i])) by {
            if i > 0 {
                assert(res[i] == r[i - 1]);
            }
        }
    } else if x == r[0] {
        assert(r.to_set().contains(x));
        assert(res.to_set() =~= r.to_set().insert(x));
    } else {
        let t = r.drop_first();
        let rest = insert_in_order(t, x);
        lemma_insert_in_order(t, x);
        assert forall|a: int, b: int| 0 <= a < b < res.len() implies res[a] < res[b] by {
            if a == 0 {
                assert(res[b] == rest[b - 1]);
                if rest[b - 1] == x {
                } else {
                    assert(t.contains(rest[b - 1]));
                    let w = choose|w: int| 0 <= w < t.len() && t[w] == rest[b - 1];
                    assert(r[w + 1] == t[w]);
                }
            } else {
                assert(res[a] == rest[a - 1]);
                assert(res[b] == rest[b - 1]);
            }
        }
        assert forall|y: usize| res.to_set().contains(y) <==> r.to_set().insert(x).contains(y) by {
            if res.to_set().contains(y) {
                let w = choose|w: int| 0 <= w < res.len() && res[w] == y;
                if w > 0 {
                    assert(rest[w - 1] == y);
                    assert(rest.to_set().contains(y));
                    if y != x {
                        assert(t.to_set().contains(y));
                        let v = choose|v: int| 0 <= v < t.len() && t[v] == y;
                        assert(r[v + 1] == y);
                    }
                } else {
                    assert(r[0] == y);
                }
            }
            if r.to_set().contains(y) {
                let w = choose|w: int| 0 <= w < r.len() && r[w] == y;
                if w == 0 {
                    assert(res[0] == y);
                } else {
                    assert(t[w - 1] == y);
                    assert(t.to_set().contains(y));
                    assert(rest.to_set().contains(y));
                    let v = choose|v: int| 0 <= v < rest.len() && rest[v] == y;
                    assert(res[v + 1] == y);
                }
            }
            if y == x {
                assert(rest.to_set().contains(x));
                let v = choose|v: int| 0 <= v < rest.len() && rest[v] == x;
                assert(res[v + 1] == x);
            }
        }
        assert(res.to_set() =~= r.to_set().insert(x));
        assert forall|i: int| 0 <= i < res.len() implies (#[trigger] res[i] == x || r.contains(res[i])) by {
            if i == 0 {
                assert(r[0] == res[0]);
            } else {
                assert(res[i] == rest[i - 1]);
                if rest[i - 1] != x {
                    assert(t.contains(rest[i - 1]));
                    let w = choose|w: int| 0 <= w < t.len() && t[w] == rest[i - 1];
                    assert(r[w + 1] == t[w]);
                }
            }
        }
    }
}

/// Every sequence has a normal form: `normalized(s)` is strictly sorted and
/// holds exactly the elements of `s`.
pub proof fn lemma_normalized(s: Seq<usize>)
    ensures
        strictly_sorted(normalized(s)),
        normalized(s).to_set() == s.to_set(),
    decreases s.len(),
{
    if s.len() == 0 {
        assert(strictly_sorted(Seq::<usize>::empty()));
        assert(Seq::<usize>::empty().to_set() =~= s.to_set());
    } else {
        let init = s.drop_last();
        lemma_normalized(init);
        let r = normalized(init);
        lemma_insert_in_order(r, s.last());
        assert(s =~= init.push(s.last()));
        init.lemma_push_to_set_commute(s.last());
        let w = insert_in_order(r, s.last());
        assert(strictly_sorted(w) && w.to_set() == s.to_set());
    }
}

/// The elements common to `a` and `b`, walking both front to back.
pub fn merge_common(a: &Vec<usize>, b: &Vec<usize>) -> (result: Vec<usize>)
    ensures
        result@ == common_merge(a@, b@),
{
    let mut result: Vec<usize> = Vec::new();
    let mut ai: usize = 0;
    let mut bi: usize = 0;
    assert(a@.skip(0) =~= a@);
    assert(b@.skip(0) =~= b@);
    assert(result@ + common_merge(a@, b@) =~= common_merge(a@, b@));
    while ai < a.len() && bi < b.len()
        invariant
            ai <= a.len(),
            bi <= b.len(),
            result@ + common_merge(a@.skip(ai as int), b@.skip(bi as int)) == common_merge(a@, b@),
        decreases a.len() - ai + b.len() - bi,
    {
        let ghost sa = a@.skip(ai as int);
        let ghost sb = b@.skip(bi as int);
        let ghost old_result = result@;
        assert(sa.drop_first() =~= a@.skip(ai + 1));
        assert(sb.drop_first() =~= b@.skip(bi + 1));
        assert(sa[0] == a@[ai as int]);
        assert(sb[0] == b@[bi as int]);
        if a[ai] == b[bi] {
            result.push(a[ai]);
            ai += 1;
            bi += 1;
            assert(old_result + (seq![sa[0]] + common_merge(sa.drop_first(), sb.drop_first()))
                =~= result@ + common_merge(a@.skip(ai as int), b@.skip(bi as int)));
        } else if a[ai] < b[bi] {
            ai += 1;
        } else {
            bi += 1;
        }
    }
    assert(common_merge(a@.skip(ai as int), b@.skip(bi as int)) =~= Seq::<usize>::empty());
    assert(result@ =~= result@ + Seq::<usize>::empty());
    result
}

/// Insert `x` into the strictly sorted `r`, keeping it strictly sorted; no
/// change when `x` is already present.
pub fn insert_sorted(r: &mut Vec<usize>, x: usize)
    requires
        strictly_sorted(old(r)@),
    ensures
        strictly_sorted(final(r)@),
        final(r)@.to_set() == old(r)@.to_set().insert(x),
{
    let mut p: usize = 0;
    while p < r.len() && r[p] < x
        invariant
            p <= r.len(),
            forall|q: int| 0 <= q < p ==> r@[q] < x,
        decreases r.len() - p,
    {
        p += 1;
    }
    if p < r.len() && r[p] == x {
        assert(r@.to_set().contains(x)) by {
            assert(r@[p as int] == x);
        }
        assert(r@.to_set().insert(x) =~= r@.to_set());
    } else {
        let ghost old_r = r@;
        r.insert(p, x);
        proof {
            old_r.insert_ensures(p as int, x);
            assert forall|a: int, b: int| 0 <= a < b < r@.len() implies r@[a] < r@[b] by {
                if b < p {
                } else if b == p {
                } else if a < p {
                    assert(r@[b] == old_r[b - 1]);
                    assert(old_r[p as int] >= x);
                    if b - 1 > p {
                        assert(old_r[p as int] < old_r[b - 1]);
                    }
                } else if a == p {
                    assert(r@[b] == old_r[b - 1]);
                    if b - 1 > p {
                        assert(old_r[p as int] < old_r[b - 1]);
                    }
                } else {
                    assert(r@[a] == old_r[a - 1]);
                    assert(r@[b] == old_r[b - 1]);
                }
            }
            assert forall|y: usize| r@.to_set().contains(y) implies old_r.to_set().insert(x).contains(y) by {
                let w = choose|w: int| 0 <= w < r@.len() && r@[w] == y;
                if w < p {
                    assert(old_r[w] == y);
                } else if w > p {
                    assert(old_r[w - 1] == y);
                }
            }
            assert forall|y: usize| old_r.to_set().insert(x).contains(y) implies r@.to_set().contains(y) by {
                if y == x {
                    assert(r@[p as int] == x);
                } else {
                    let w = choose|w: int| 0 <= w < old_r.len() && old_r[w] == y;
                    if w < p {
                        assert(r@[w] == y);
                    } else {
                        assert(r@[w + 1] == y);
                    }
                }
            }
            assert(r@.to_set() =~= old_r.to_set().insert(x));
        }
    }
}

/// The elements of `v` in strictly increasing order, repeats removed.
pub fn sort_dedup(v: &Vec<usize>) -> (r: Vec<usize>)
    ensures
        r@ == normalized(v@),
        strictly_sorted(r@),
        r@.to_set() == v@.to_set(),
{
    let mut r: Vec<usize> = Vec::new();
    let mut i: usize = 0;
    assert(v@.take(0).to_set() =~= r@.to_set());
    while i < v.len()
        invariant
            i <= v.len(),
            strictly_sorted(r@),
            r@.to_set() == v@.take(i as int).to_set(),
        decreases v.len() - i,
    {
        insert_sorted(&mut r, v[i]);
        proof {
            assert(v@.take(i + 1) =~= v@.take(i as int).push(v@[i as int]));
            v@.take(i as int).lemma_push_to_set_commute(v@[i as int]);
        }
        i += 1;
    }
    assert(v@.take(v.len() as int) =~= v@);
    proof {
        lemma_normalized_of_sorted(r@, v@);
    }
    r
}

/// A fresh vector holding the same indices as `v`.
pub fn copy_indices(v: &[usize]) -> (r: Vec<usize>)
    ensures
        r@ == v@,
{
    let mut r: Vec<usize> = Vec::new();
    let mut i: usize = 0;
    while i < v.len()
        invariant
            i <= v.len(),
            r@ == v@.take(i as int),
        decreases v.len() - i,
    {
        r.push(v[i]);
        i += 1;
        assert(r@ =~= v@.take(i as int));
    }
    assert(v@.take(v.len() as int) =~= v@);
    r
}

} // verus!
