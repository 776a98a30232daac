//! The Čech coboundary matrices of a cover.
//!
//! C⁰ has one coordinate per (set, position) pair, set by set; C¹ has one
//! coordinate per element of every non-empty pairwise intersection, in the
//! order of `cochain_labels`. The matrices have entries in {-1, 0, 1};
//! their ranks and kernels (numerical linear algebra) are computed by the
//! caller.

use vstd::prelude::*;
use crate::cover::{OpenCover, first_index, position_of, is_pair_list, lists_pair, pair_before, triple_before, listed, triple_merge, is_triple_list, lists_triple};
use crate::sorted::{common_merge, lemma_common_merge_members, lemma_common_merge_len, lemma_common_merge_sorted};

verus! {

/// Column at which set `i`'s block starts in C⁰: the total length of the
/// sets before it. `set_offset(cover, cover.len())` is the dimension of C⁰.
pub open spec fn set_offset(cover: Seq<Seq<usize>>, i: int) -> int
    decreases i,
{
    if i <= 0 {
        0
    } else {
        set_offset(cover, i - 1) + cover[i - 1].len()
    }
}

/// `l = (i, j, k)` names a coordinate of C¹: the `k`-th element of the
/// intersection of sets `i < j`.
pub open spec fn is_cochain_label(cover: Seq<Seq<usize>>, l: (usize, usize, usize)) -> bool {
    l.0 < l.1 < cover.len() && l.2 < common_merge(cover[l.0 as int], cover[l.1 as int]).len()
}

/// `labels` lists every coordinate of C¹ exactly once, in lexicographic order.
pub open spec fn is_label_list(cover: Seq<Seq<usize>>, labels: Seq<(usize, usize, usize)>) -> bool {
    &&& forall|t: int| 0 <= t < labels.len() ==> is_cochain_label(cover, #[trigger] labels[t])
    &&& forall|s: int, t: int| 0 <= s < t < labels.len() ==> triple_before(labels[s], labels[t])
    &&& forall|l: (usize, usize, usize)| #[trigger] is_cochain_label(cover, l) ==> labels.contains(l)
}

/// The variable that C¹ coordinate `l` stands for.
pub open spec fn label_variable(cover: Seq<Seq<usize>>, l: (usize, usize, usize)) -> usize {
    common_merge(cover[l.0 as int], cover[l.1 as int])[l.2 as int]
}

/// Entry of d⁰ in the row of C¹ coordinate `l = (i, j, k)` and C⁰ column `c`:
/// +1 at set `i`'s position of the variable, -1 at set `j`'s, 0 elsewhere.
pub open spec fn d0_entry(cover: Seq<Seq<usize>>, l: (usize, usize, usize), c: int) -> i8 {
    let x = label_variable(cover, l);
    if c == set_offset(cover, l.0 as int) + first_index(cover[l.0 as int], x) {
        1i8
    } else if c == set_offset(cover, l.1 as int) + first_index(cover[l.1 as int], x) {
        -1i8
    } else {
        0i8
    }
}

/// `m` is the row of C¹ coordinate `l` in the d⁰ matrix over C⁰ of dimension `ncols`.
pub open spec fn is_d0_row(cover: Seq<Seq<usize>>, l: (usize, usize, usize), m: Seq<i8>) -> bool {
    &&& m.len() == set_offset(cover, cover.len() as int)
    &&& forall|c: int| 0 <= c < m.len() ==> #[trigger] m[c] == d0_entry(cover, l, c)
}

/// Set offsets grow with the index.
pub proof fn lemma_set_offset_monotone(cover: Seq<Seq<usize>>, i: int, j: int)
    requires
        0 <= i <= j <= cover.len(),
    ensures
        set_offset(cover, i) <= set_offset(cover, j),
    decreases j - i,
{
    if i < j {
        lemma_set_offset_monotone(cover, i, j - 1);
    }
}

/// The starting column of every set's block, and the dimension of C⁰.
fn column_offsets(cover: &OpenCover) -> (r: (Vec<usize>, usize))
    requires
        set_offset(cover@, cover@.len() as int) <= usize::MAX,
    ensures
        r.0@.len() == cover@.len(),
        forall|i: int| 0 <= i < cover@.len() ==> #[trigger] r.0@[i] == set_offset(cover@, i),
        r.1 == set_offset(cover@, cover@.len() as int),
{
    let mut offsets: Vec<usize> = Vec::new();
    let mut acc: usize = 0;
    let mut i: usize = 0;
    while i < cover.sets.len()
        invariant
            i <= cover@.len(),
            set_offset(cover@, cover@.len() as int) <= usize::MAX,
            offsets@.len() == i,
            forall|q: int| 0 <= q < i ==> #[trigger] offsets@[q] == set_offset(cover@, q),
            acc == set_offset(cover@, i as int),
        decreases cover@.len() - i,
    {
        offsets.push(acc);
        proof {
            lemma_set_offset_monotone(cover@, i + 1, cover@.len() as int);
            assert(cover@[i as int] == cover.sets@[i as int]@);
        }
        acc = acc + cover.sets[i].len();
        i += 1;
    }
    (offsets, acc)
}

/// A row of `n` zeros.
fn zero_row(n: usize) -> (r: Vec<i8>)
    ensures
        r@.len() == n,
        forall|c: int| 0 <= c < n ==> #[trigger] r@[c] == 0,
{
    let mut r: Vec<i8> = Vec::new();
    let mut c: usize = 0;
    while c < n
        invariant
            c <= n,
            r@.len() == c,
            forall|q: int| 0 <= q < c ==> #[trigger] r@[q] == 0,
        decreases n - c,
    {
        r.push(0);
        c += 1;
    }
    r
}

/// The variable of a C¹ coordinate lies in both of its sets.
proof fn lemma_label_variable_in_sets(cover: Seq<Seq<usize>>, l: (usize, usize, usize))
    requires
        is_cochain_label(cover, l),
    ensures
        cover[l.0 as int].contains(label_variable(cover, l)),
        cover[l.1 as int].contains(label_variable(cover, l)),
{
    lemma_common_merge_members(cover[l.0 as int], cover[l.1 as int]);
}

/// The d⁰ row of C¹ coordinate `l`, whose variable is `x`.
fn d0_row(cover: &OpenCover, offsets: &Vec<usize>, ncols: usize, l: (usize, usize, usize), x: usize) -> (r: Vec<i8>)
    requires
        offsets@.len() == cover@.len(),
        forall|i: int| 0 <= i < cover@.len() ==> #[trigger] offsets@[i] == set_offset(cover@, i),
        ncols == set_offset(cover@, cover@.len() as int),
        is_cochain_label(cover@, l),
        x == label_variable(cover@, l),
    ensures
        is_d0_row(cover@, l, r@),
{
    let ghost cv = cover@;
    let i = l.0;
    let j = l.1;
    proof {
        lemma_label_variable_in_sets(cv, l);
        assert(cv[i as int] == cover.sets@[i as int]@);
        assert(cv[j as int] == cover.sets@[j as int]@);
    }
    let pos_i = match position_of(cover.sets[i].as_slice(), x) {
        Some(p) => p,
        None => 0,
    };
    let pos_j = match position_of(cover.sets[j].as_slice(), x) {
        Some(p) => p,
        None => 0,
    };
    let ghost oi = set_offset(cv, i as int);
    let ghost oj = set_offset(cv, j as int);
    assert(oi + cv[i as int].len() <= oj) by {
        lemma_set_offset_monotone(cv, i + 1, j as int);
    }
    assert(oj + cv[j as int].len() <= ncols) by {
        lemma_set_offset_monotone(cv, j + 1, cv.len() as int);
    }
    assert(offsets@[i as int] == oi);
    assert(offsets@[j as int] == oj);
    let ci = offsets[i] + pos_i;
    let cj = offsets[j] + pos_j;
    let mut row = zero_row(ncols);
    row.set(ci, 1);
    row.set(cj, -1);
    assert forall|c: int| 0 <= c < row@.len() implies #[trigger] row@[c] == d0_entry(cv, l, c) by {
        if c == ci {
        } else if c == cj {
        } else {
        }
    }
    row
}

/// The d⁰ rows (when `with_rows`) and the C¹ coordinate labels, built by
/// walking the non-empty intersections in order.
fn d0_rows_and_labels(cover: &OpenCover, with_rows: bool) -> (r: (Vec<Vec<i8>>, Vec<(usize, usize, usize)>))
    requires
        with_rows ==> set_offset(cover@, cover@.len() as int) <= usize::MAX,
    ensures
        is_label_list(cover@, r.1@),
        with_rows ==> r.0@.len() == r.1@.len(),
        with_rows ==> forall|t: int| 0 <= t < r.1@.len() ==> is_d0_row(cover@, r.1@[t], #[trigger] r.0@[t]@),
{
    let ghost cv = cover@;
    let inters = cover.nonempty_intersections();
    let (offsets, ncols) = if with_rows {
        column_offsets(cover)
    } else {
        (Vec::new(), 0)
    };
    let mut mat: Vec<Vec<i8>> = Vec::new();
    let mut labels: Vec<(usize, usize, usize)> = Vec::new();
    let mut t: usize = 0;
    while t < inters.len()
        invariant
            cv == cover@,
            is_pair_list(cv, inters@, false),
            with_rows ==> offsets@.len() == cv.len(),
            with_rows ==> forall|i: int| 0 <= i < cv.len() ==> #[trigger] offsets@[i] == set_offset(cv, i),
            with_rows ==> ncols == set_offset(cv, cv.len() as int),
            t <= inters@.len(),
            forall|u: int| 0 <= u < labels@.len() ==> is_cochain_label(cv, #[trigger] labels@[u]),
            forall|s: int, u: int| 0 <= s < u < labels@.len() ==> triple_before(labels@[s], labels@[u]),
            forall|u: int, w: int|
                #![trigger labels@[u], inters@[w]]
                0 <= u < labels@.len() && t <= w < inters@.len() ==> triple_before(labels@[u], (inters@[w].0, inters@[w].1, 0)),
            forall|l: (usize, usize, usize), w: int|
                #![trigger is_cochain_label(cv, l), inters@[w]]
                is_cochain_label(cv, l) && 0 <= w < t && inters@[w].0 == l.0 && inters@[w].1 == l.1 ==> labels@.contains(l),
            with_rows ==> mat@.len() == labels@.len(),
            with_rows ==> forall|u: int| 0 <= u < labels@.len() ==> is_d0_row(cv, labels@[u], #[trigger] mat@[u]@),
        decreases inters@.len() - t,
    {
        let i = inters[t].0;
        let j = inters[t].1;
        let inter = &inters[t].2;
        proof {
            lemma_common_merge_members(cv[i as int], cv[j as int]);
            lemma_set_offset_monotone(cv, i + 1, j as int);
            lemma_set_offset_monotone(cv, j + 1, cv.len() as int);
        }
        let mut k: usize = 0;
        while k < inter.len()
            invariant
                cv == cover@,
                is_pair_list(cv, inters@, false),
                with_rows ==> offsets@.len() == cv.len(),
                with_rows ==> forall|q: int| 0 <= q < cv.len() ==> #[trigger] offsets@[q] == set_offset(cv, q),
                with_rows ==> ncols == set_offset(cv, cv.len() as int),
                t < inters@.len(),
                i == inters@[t as int].0,
                j == inters@[t as int].1,
                inter@ == inters@[t as int].2@,
                inter@ == common_merge(cv[i as int], cv[j as int]),
                i < j < cv.len(),
                forall|q: int| 0 <= q < inter@.len() ==> cv[i as int].contains(#[trigger] inter@[q]) && cv[j as int].contains(inter@[q]),
                set_offset(cv, i + 1) <= set_offset(cv, j as int),
                set_offset(cv, j + 1) <= set_offset(cv, cv.len() as int),
                k <= inter@.len(),
                forall|u: int| 0 <= u < labels@.len() ==> is_cochain_label(cv, #[trigger] labels@[u]),
                forall|s: int, u: int| 0 <= s < u < labels@.len() ==> triple_before(labels@[s], labels@[u]),
                forall|u: int| 0 <= u < labels@.len() ==> triple_before(#[trigger] labels@[u], (i, j, k)),
                forall|l: (usize, usize, usize), w: int|
                    #![trigger is_cochain_label(cv, l), inters@[w]]
                    is_cochain_label(cv, l) && 0 <= w < t && inters@[w].0 == l.0 && inters@[w].1 == l.1 ==> labels@.contains(l),
                forall|l: (usize, usize, usize)|
                    #[trigger] is_cochain_label(cv, l) && l.0 == i && l.1 == j && l.2 < k ==> labels@.contains(l),
                with_rows ==> mat@.len() == labels@.len(),
                with_rows ==> forall|u: int| 0 <= u < labels@.len() ==> is_d0_row(cv, labels@[u], #[trigger] mat@[u]@),
            decreases inter@.len() - k,
        {
            let x = inter[k];
            let ghost old_labels = labels@;
            if with_rows {
                let row = d0_row(cover, &offsets, ncols, (i, j, k), x);
                mat.push(row);
            }
            labels.push((i, j, k));
            proof {
                assert(is_cochain_label(cv, (i, j, k)));
                assert forall|l: (usize, usize, usize)|
                    #[trigger] is_cochain_label(cv, l) && l.0 == i && l.1 == j && l.2 < k + 1 implies labels@.contains(l) by {
                    if l.2 == k {
                        assert(labels@[labels@.len() - 1] == l);
                    } else {
                        assert(old_labels.contains(l));
                        let u = choose|u: int| 0 <= u < old_labels.len() && old_labels[u] == l;
                        assert(labels@[u] == l);
                    }
                }
                assert forall|l: (usize, usize, usize), w: int|
                    #![trigger is_cochain_label(cv, l), inters@[w]]
                    is_cochain_label(cv, l) && 0 <= w < t && inters@[w].0 == l.0 && inters@[w].1 == l.1 implies labels@.contains(l) by {
                    assert(old_labels.contains(l));
                    let u = choose|u: int| 0 <= u < old_labels.len() && old_labels[u] == l;
                    assert(labels@[u] == l);
                }
            }
            k += 1;
        }
        proof {
            assert forall|l: (usize, usize, usize), w: int|
                #![trigger is_cochain_label(cv, l), inters@[w]]
                is_cochain_label(cv, l) && 0 <= w < t + 1 && inters@[w].0 == l.0 && inters@[w].1 == l.1 implies labels@.contains(l) by {
                if w == t {
                    assert(l.2 < inter@.len());
                }
            }
            assert forall|u: int, w: int|
                #![trigger labels@[u], inters@[w]]
                0 <= u < labels@.len() && t + 1 <= w < inters@.len() implies triple_before(labels@[u], (inters@[w].0, inters@[w].1, 0)) by {
                assert(pair_before((inters@[t as int].0, inters@[t as int].1), (inters@[w].0, inters@[w].1)));
                assert(triple_before(labels@[u], (i, j, k)));
            }
        }
        t += 1;
    }
    proof {
        assert forall|l: (usize, usize, usize)| #[trigger] is_cochain_label(cv, l) implies labels@.contains(l) by {
            assert(listed(false, common_merge(cv[l.0 as int], cv[l.1 as int])));
            assert(lists_pair(inters@, l.0, l.1));
            let w = choose|w: int| 0 <= w < inters@.len() && inters@[w].0 == l.0 && inters@[w].1 == l.1;
            assert(inters@[w].0 == l.0);
        }
    }
    (mat, labels)
}

/// The Čech coboundary d⁰ : C⁰ → C¹ as a matrix with one row per C¹
/// coordinate (labelled `(i, j, k)`: the `k`-th element of the intersection
/// of sets `i < j`, in lexicographic order) and one column per C⁰
/// coordinate. The row has +1 at set `i`'s position of that variable and
/// -1 at set `j`'s.
pub fn build_d0_matrix(cover: &OpenCover) -> (r: (Vec<Vec<i8>>, Vec<(usize, usize, usize)>))
    requires
        set_offset(cover@, cover@.len() as int) <= usize::MAX,
    ensures
        is_label_list(cover@, r.1@),
        r.0@.len() == r.1@.len(),
        forall|t: int| 0 <= t < r.1@.len() ==> is_d0_row(cover@, r.1@[t], #[trigger] r.0@[t]@),
{
    d0_rows_and_labels(cover, true)
}

/// Two lexicographically sorted label lists with the same members are equal.
pub proof fn lemma_sorted_labels_unique(s1: Seq<(usize, usize, usize)>, s2: Seq<(usize, usize, usize)>)
    requires
        forall|a: int, b: int| 0 <= a < b < s1.len() ==> triple_before(s1[a], s1[b]),
        forall|a: int, b: int| 0 <= a < b < s2.len() ==> triple_before(s2[a], s2[b]),
        forall|l: (usize, usize, usize)| s1.contains(l) <==> s2.contains(l),
    ensures
        s1 == s2,
    decreases s1.len(),
{
    if s1.len() == 0 {
        if s2.len() > 0 {
            assert(s2.contains(s2[0]));
        }
        assert(s1 =~= s2);
    } else {
        assert(s1.contains(s1[0]));
        assert(s2.len() > 0);
        assert(s2.contains(s2[0]));
        let w2 = choose|w: int| 0 <= w < s2.len() && s2[w] == s1[0];
        let w1 = choose|w: int| 0 <= w < s1.len() && s1[w] == s2[0];
        if w2 > 0 {
            assert(triple_before(s2[0], s2[w2]));
            if w1 > 0 {
                assert(triple_before(s1[0], s1[w1]));
            }
        }
        assert(s1[0] == s2[0]);
        let t1 = s1.drop_first();
        let t2 = s2.drop_first();
        assert forall|l: (usize, usize, usize)| t1.contains(l) <==> t2.contains(l) by {
            if t1.contains(l) {
                let w = choose|w: int| 0 <= w < t1.len() && t1[w] == l;
                assert(s1[w + 1] == l);
                assert(s1.contains(l));
                let v = choose|v: int| 0 <= v < s2.len() && s2[v] == l;
                assert(triple_before(s1[0], s1[w + 1]));
                assert(v != 0);
                assert(t2[v - 1] == l);
            }
            if t2.contains(l) {
                let w = choose|w: int| 0 <= w < t2.len() && t2[w] == l;
                assert(s2[w + 1] == l);
                assert(s2.contains(l));
                let v = choose|v: int| 0 <= v < s1.len() && s1[v] == l;
                assert(triple_before(s2[0], s2[w + 1]));
                assert(v != 0);
                assert(t1[v - 1] == l);
            }
        }
        lemma_sorted_labels_unique(t1, t2);
        assert forall|i: int| 0 <= i < s1.len() implies s1[i] == s2[i] by {
            if i > 0 {
                assert(s1[i] == t1[i - 1]);
                assert(s2[i] == t2[i - 1]);
            }
        }
        assert(s1 =~= s2);
    }
}

/// The coordinates of C¹ are listed in one way only.
pub proof fn lemma_label_list_unique(cover: Seq<Seq<usize>>, l1: Seq<(usize, usize, usize)>, l2: Seq<(usize, usize, usize)>)
    requires
        is_label_list(cover, l1),
        is_label_list(cover, l2),
    ensures
        l1 == l2,
{
    assert forall|l: (usize, usize, usize)| l1.contains(l) <==> l2.contains(l) by {
        if l1.contains(l) {
            let w = choose|w: int| 0 <= w < l1.len() && l1[w] == l;
            assert(is_cochain_label(cover, l1[w]));
        }
        if l2.contains(l) {
            let w = choose|w: int| 0 <= w < l2.len() && l2[w] == l;
            assert(is_cochain_label(cover, l2[w]));
        }
    }
    lemma_sorted_labels_unique(l1, l2);
}

/// `l = (i, j, k, t)` names a coordinate of C²: the `t`-th element of the
/// triple intersection of sets `i < j < k`.
pub open spec fn is_d1_label(cover: Seq<Seq<usize>>, l: (usize, usize, usize, usize)) -> bool {
    l.0 < l.1 < l.2 < cover.len() && l.3 < triple_merge(cover, l.0, l.1, l.2).len()
}

/// `(a.0, a.1, a.2, a.3)` comes strictly before `b` in lexicographic order.
pub open spec fn quad_before(a: (usize, usize, usize, usize), b: (usize, usize, usize, usize)) -> bool {
    triple_before((a.0, a.1, a.2), (b.0, b.1, b.2)) || (a.0 == b.0 && a.1 == b.1 && a.2 == b.2 && a.3 < b.3)
}

/// `labels` lists every coordinate of C² exactly once, in lexicographic order.
pub open spec fn is_d1_label_list(cover: Seq<Seq<usize>>, labels: Seq<(usize, usize, usize, usize)>) -> bool {
    &&& forall|t: int| 0 <= t < labels.len() ==> is_d1_label(cover, #[trigger] labels[t])
    &&& forall|s: int, t: int| 0 <= s < t < labels.len() ==> quad_before(labels[s], labels[t])
    &&& forall|l: (usize, usize, usize, usize)| #[trigger] is_d1_label(cover, l) ==> labels.contains(l)
}

/// The variable that C² coordinate `l` stands for.
pub open spec fn d1_variable(cover: Seq<Seq<usize>>, l: (usize, usize, usize, usize)) -> usize {
    triple_merge(cover, l.0, l.1, l.2)[l.3 as int]
}

/// The C¹ coordinate of variable `x` in the intersection of sets `p < q`.
pub open spec fn pair_coordinate(cover: Seq<Seq<usize>>, p: usize, q: usize, x: usize) -> (usize, usize, usize) {
    (p, q, first_index(common_merge(cover[p as int], cover[q as int]), x) as usize)
}

/// Entry of d¹ in the row of C² coordinate `row = (i, j, k, t)` with
/// variable `x`, and the column of C¹ coordinate `col`: the cocycle
/// condition `diff_ij - diff_ik + diff_jk` at `x`, where a term is present
/// only if its intersection is non-empty.
pub open spec fn d1_entry(cover: Seq<Seq<usize>>, row: (usize, usize, usize, usize), col: (usize, usize, usize)) -> i8 {
    let (i, j, k) = (row.0, row.1, row.2);
    let x = d1_variable(cover, row);
    if col == pair_coordinate(cover, i, j, x) {
        1i8
    } else if common_merge(cover[i as int], cover[k as int]).len() > 0 && col == pair_coordinate(cover, i, k, x) {
        -1i8
    } else if common_merge(cover[j as int], cover[k as int]).len() > 0 && col == pair_coordinate(cover, j, k, x) {
        1i8
    } else {
        0i8
    }
}

/// d¹ can be built: the variable of every C² coordinate lies in each
/// non-empty intersection of two of its sets. Always true of sorted covers
/// (`law_sorted_cover_d1_defined`).
pub open spec fn d1_defined(cover: Seq<Seq<usize>>) -> bool {
    forall|l: (usize, usize, usize, usize)| #[trigger] is_d1_label(cover, l) ==> d1_defined_at(cover, l)
}

/// In a cover of sorted sets, d¹ can always be built.
pub proof fn law_sorted_cover_d1_defined(cover: Seq<Seq<usize>>)
    requires
        crate::cover::all_sorted(cover),
    ensures
        d1_defined(cover),
{
    assert forall|l: (usize, usize, usize, usize)| #[trigger] is_d1_label(cover, l) implies d1_defined_at(cover, l) by {
        let (i, j, k) = (l.0 as int, l.1 as int, l.2 as int);
        let mij = common_merge(cover[i], cover[j]);
        let x = d1_variable(cover, l);
        crate::sorted::lemma_common_merge_sorted(cover[i], cover[j]);
        lemma_common_merge_members(mij, cover[k]);
        assert(common_merge(mij, cover[k])[l.3 as int] == x);
        assert(mij.contains(x) && cover[k].contains(x));
        crate::sorted::lemma_common_merge_sorted(cover[i], cover[k]);
        crate::sorted::lemma_common_merge_sorted(cover[j], cover[k]);
    }
}

/// Entry `(row, c)` of the product d¹·d⁰, the inner index running over the
/// C¹ coordinates `cols` (the column order of d¹ and the row order of d⁰).
pub open spec fn d1_d0_entry(
    cover: Seq<Seq<usize>>,
    cols: Seq<(usize, usize, usize)>,
    row: (usize, usize, usize, usize),
    c: int,
) -> int
    decreases cols.len(),
{
    if cols.len() == 0 {
        0
    } else {
        d1_d0_entry(cover, cols.drop_last(), row, c) + d1_entry(cover, row, cols.last()) as int * d0_entry(
            cover,
            cols.last(),
            c,
        ) as int
    }
}

/// One term of the product d¹·d⁰.
spec fn product_term(cover: Seq<Seq<usize>>, row: (usize, usize, usize, usize), l: (usize, usize, usize), c: int) -> int {
    d1_entry(cover, row, l) as int * d0_entry(cover, l, c) as int
}

/// `v` when `b` holds, else 0.
spec fn when(b: bool, v: int) -> int {
    if b {
        v
    } else {
        0
    }
}

/// 1 when `b` holds, else 0.
spec fn indicator(b: bool) -> int {
    when(b, 1)
}

/// When d¹'s row vanishes outside three distinct coordinates, the product
/// over a repeat-free list is the sum of the terms of those three it holds.
proof fn lemma_product_three_terms(
    cover: Seq<Seq<usize>>,
    cols: Seq<(usize, usize, usize)>,
    row: (usize, usize, usize, usize),
    c: int,
    a: (usize, usize, usize),
    b: (usize, usize, usize),
    d: (usize, usize, usize),
)
    requires
        forall|s: int, t: int| 0 <= s < t < cols.len() ==> cols[s] != cols[t],
        a != b,
        a != d,
        b != d,
        forall|l: (usize, usize, usize)| l != a && l != b && l != d ==> #[trigger] d1_entry(cover, row, l) == 0,
    ensures
        d1_d0_entry(cover, cols, row, c) == when(cols.contains(a), product_term(cover, row, a, c))
            + when(cols.contains(b), product_term(cover, row, b, c))
            + when(cols.contains(d), product_term(cover, row, d, c)),
    decreases cols.len(),
{
    if cols.len() > 0 {
        let init = cols.drop_last();
        let last = cols.last();
        lemma_product_three_terms(cover, init, row, c, a, b, d);
        assert forall|l: (usize, usize, usize)| #[trigger] cols.contains(l) <==> (init.contains(l) || l == last) by {
            if cols.contains(l) {
                let w = choose|w: int| 0 <= w < cols.len() && cols[w] == l;
                if w < cols.len() - 1 {
                    assert(init[w] == l);
                }
            }
            if init.contains(l) {
                let w = choose|w: int| 0 <= w < init.len() && init[w] == l;
                assert(cols[w] == l);
            }
            if l == last {
                assert(cols[cols.len() - 1] == l);
            }
        }
        assert forall|l: (usize, usize, usize)| l == last implies !init.contains(l) by {
            if init.contains(l) {
                let w = choose|w: int| 0 <= w < init.len() && init[w] == l;
                assert(cols[w] == init[w]);
            }
        }
        assert(cols.contains(a) == (init.contains(a) || a == last));
        assert(cols.contains(b) == (init.contains(b) || b == last));
        assert(cols.contains(d) == (init.contains(d) || d == last));
        assert(d1_d0_entry(cover, cols, row, c) == d1_d0_entry(cover, init, row, c) + product_term(cover, row, last, c));
        if last != a && last != b && last != d {
            assert(d1_entry(cover, row, last) == 0);
            assert(product_term(cover, row, last, c) == 0);
        }
    }
}

/// Law: d¹ ∘ d⁰ = 0, so the coboundary matrices form a cochain complex and
/// H¹ = ker d¹ / im d⁰ is well defined: every entry of their product
/// vanishes, over any listing of C¹ (for covers of sorted sets, as
/// `OpenCover::new` makes them).
pub proof fn law_coboundary_squared_zero(
    cover: Seq<Seq<usize>>,
    cols: Seq<(usize, usize, usize)>,
    row: (usize, usize, usize, usize),
    c: int,
)
    requires
        crate::cover::all_sorted(cover),
        forall|p: int| 0 <= p < cover.len() ==> #[trigger] cover[p].len() <= usize::MAX,
        is_label_list(cover, cols),
        is_d1_label(cover, row),
    ensures
        d1_d0_entry(cover, cols, row, c) == 0,
{
    let (i, j, k) = (row.0, row.1, row.2);
    let (ci, cj, ck) = (cover[i as int], cover[j as int], cover[k as int]);
    let x = d1_variable(cover, row);
    let mij = common_merge(ci, cj);
    let mik = common_merge(ci, ck);
    let mjk = common_merge(cj, ck);
    lemma_common_merge_members(mij, ck);
    lemma_common_merge_members(ci, cj);
    assert(mij.contains(x) && ck.contains(x));
    assert(ci.contains(x) && cj.contains(x));
    lemma_common_merge_sorted(ci, ck);
    lemma_common_merge_sorted(cj, ck);
    assert(mik.contains(x) && mjk.contains(x));
    lemma_common_merge_len(ci, cj);
    lemma_common_merge_len(ci, ck);
    lemma_common_merge_len(cj, ck);
    crate::cover::lemma_first_index_of_member(mij, x);
    crate::cover::lemma_first_index_of_member(mik, x);
    crate::cover::lemma_first_index_of_member(mjk, x);
    crate::cover::lemma_first_index_of_member(ci, x);
    crate::cover::lemma_first_index_of_member(cj, x);
    crate::cover::lemma_first_index_of_member(ck, x);
    let a = pair_coordinate(cover, i, j, x);
    let b = pair_coordinate(cover, i, k, x);
    let d = pair_coordinate(cover, j, k, x);
    assert(is_cochain_label(cover, a) && is_cochain_label(cover, b) && is_cochain_label(cover, d));
    assert(label_variable(cover, a) == x && label_variable(cover, b) == x && label_variable(cover, d) == x);
    assert(cols.contains(a) && cols.contains(b) && cols.contains(d));
    assert forall|s: int, t: int| 0 <= s < t < cols.len() implies cols[s] != cols[t] by {
        assert(triple_before(cols[s], cols[t]));
    }
    lemma_product_three_terms(cover, cols, row, c, a, b, d);
    let pi = set_offset(cover, i as int) + first_index(ci, x);
    let pj = set_offset(cover, j as int) + first_index(cj, x);
    let pk = set_offset(cover, k as int) + first_index(ck, x);
    lemma_set_offset_monotone(cover, i + 1, j as int);
    lemma_set_offset_monotone(cover, j + 1, k as int);
    assert(pi < pj < pk);
    assert(d1_entry(cover, row, a) == 1);
    assert(d1_entry(cover, row, b) == -1);
    assert(d1_entry(cover, row, d) == 1);
    assert(product_term(cover, row, a, c) == indicator(c == pi) - indicator(c == pj));
    assert(product_term(cover, row, b, c) == -(indicator(c == pi) - indicator(c == pk)));
    assert(product_term(cover, row, d, c) == indicator(c == pj) - indicator(c == pk));
    assert(when(cols.contains(a), product_term(cover, row, a, c)) == product_term(cover, row, a, c));
    assert(when(cols.contains(b), product_term(cover, row, b, c)) == product_term(cover, row, b, c));
    assert(when(cols.contains(d), product_term(cover, row, d, c)) == product_term(cover, row, d, c));
}

/// Law: when no two sets of a cover share a variable (in particular when
/// there is a single set), C¹ and C² have no coordinates: d⁰ and d¹ have no
/// rows, so every cochain of C⁰ is a cocycle (H⁰ = C⁰) and H¹ = 0.
pub proof fn law_disjoint_sets_have_no_overlaps(cover: Seq<Seq<usize>>)
    requires
        crate::cover::all_sorted(cover),
        forall|i: int, j: int, x: usize|
            0 <= i < j < cover.len() ==> !(#[trigger] cover[i].contains(x) && #[trigger] cover[j].contains(x)),
    ensures
        forall|l: (usize, usize, usize)| !is_cochain_label(cover, l),
        forall|l: (usize, usize, usize, usize)| !is_d1_label(cover, l),
{
    assert forall|l: (usize, usize, usize)| !is_cochain_label(cover, l) by {
        if is_cochain_label(cover, l) {
            let (ci, cj) = (cover[l.0 as int], cover[l.1 as int]);
            lemma_common_merge_sorted(ci, cj);
            let x = common_merge(ci, cj)[l.2 as int];
            assert(common_merge(ci, cj).contains(x));
            assert(ci.contains(x) && cj.contains(x));
        }
    }
    assert forall|l: (usize, usize, usize, usize)| !is_d1_label(cover, l) by {
        if is_d1_label(cover, l) {
            let (ci, cj) = (cover[l.0 as int], cover[l.1 as int]);
            let mij = common_merge(ci, cj);
            lemma_common_merge_members(mij, cover[l.2 as int]);
            let x = triple_merge(cover, l.0, l.1, l.2)[l.3 as int];
            assert(mij.contains(x));
            lemma_common_merge_sorted(ci, cj);
            assert(ci.contains(x) && cj.contains(x));
        }
    }
}

/// Total size of the intersections of a pair list.
pub open spec fn inter_total(r: Seq<(usize, usize, Vec<usize>)>) -> nat
    decreases r.len(),
{
    if r.len() == 0 {
        0
    } else {
        inter_total(r.drop_last()) + r.last().2@.len()
    }
}

/// The C¹ coordinates of a pair list: `(i, j, k)` for each entry `(i, j, I)`
/// and each `k < |I|`, entry by entry.
spec fn pair_labels(r: Seq<(usize, usize, Vec<usize>)>) -> Seq<(usize, usize, usize)>
    decreases r.len(),
{
    if r.len() == 0 {
        Seq::empty()
    } else {
        pair_labels(r.drop_last()) + Seq::new(r.last().2@.len(), |k: int| (r.last().0, r.last().1, k as usize))
    }
}

/// The entry of the pair list that label `w` of `pair_labels(r)` comes from.
spec fn label_source(r: Seq<(usize, usize, Vec<usize>)>, w: int) -> int
    decreases r.len(),
{
    if r.len() == 0 {
        0
    } else if w < pair_labels(r.drop_last()).len() {
        label_source(r.drop_last(), w)
    } else {
        r.len() - 1
    }
}

/// The label at position `w` comes from entry `u` of the pair list.
spec fn label_from(r: Seq<(usize, usize, Vec<usize>)>, l: (usize, usize, usize), u: int) -> bool {
    0 <= u < r.len() && l.0 == r[u].0 && l.1 == r[u].1 && l.2 < r[u].2@.len()
}

/// What `pair_labels` holds: `inter_total` labels, each from some entry, and
/// every `(i, j, k)` of every entry; in lexicographic order when the pairs
/// are.
proof fn lemma_pair_labels(r: Seq<(usize, usize, Vec<usize>)>)
    ensures
        pair_labels(r).len() == inter_total(r),
        forall|w: int| 0 <= w < pair_labels(r).len() ==> label_from(r, #[trigger] pair_labels(r)[w], label_source(r, w)),
        forall|u: int, k: int| 0 <= u < r.len() && 0 <= k < r[u].2@.len() ==> #[trigger] pair_labels(r).contains((r[u].0, r[u].1, #[trigger] (k as usize))),
        (forall|s: int, t: int| 0 <= s < t < r.len() ==> pair_before((r[s].0, r[s].1), (r[t].0, r[t].1)))
            ==> forall|a: int, b: int| 0 <= a < b < pair_labels(r).len() ==> triple_before(pair_labels(r)[a], pair_labels(r)[b]),
    decreases r.len(),
{
    if r.len() > 0 {
        let init = r.drop_last();
        let e = r.last();
        lemma_pair_labels(init);
        let p = pair_labels(init);
        let blk = Seq::new(e.2@.len(), |k: int| (e.0, e.1, k as usize));
        let l = pair_labels(r);
        assert(l == p + blk);
        assert(e.2.len() == e.2@.len());
        assert forall|w: int| 0 <= w < l.len() implies label_from(r, #[trigger] l[w], label_source(r, w)) by {
            if w < p.len() {
                assert(l[w] == p[w]);
                let u = label_source(init, w);
                assert(label_from(init, p[w], u));
                assert(r[u] == init[u]);
            } else {
                assert(l[w] == blk[w - p.len()]);
                assert(label_from(r, l[w], r.len() - 1));
            }
        }
        assert forall|u: int, k: int| 0 <= u < r.len() && 0 <= k < r[u].2@.len() implies #[trigger] l.contains((r[u].0, r[u].1, #[trigger] (k as usize))) by {
            if u < r.len() - 1 {
                assert(r[u] == init[u]);
                assert(p.contains((init[u].0, init[u].1, k as usize)));
                let w = choose|w: int| 0 <= w < p.len() && p[w] == (init[u].0, init[u].1, k as usize);
                assert(l[w] == p[w]);
            } else {
                assert(l[p.len() + k] == blk[k]);
            }
        }
        if forall|s: int, t: int| 0 <= s < t < r.len() ==> pair_before((r[s].0, r[s].1), (r[t].0, r[t].1)) {
            assert forall|s: int, t: int| 0 <= s < t < init.len() implies pair_before((init[s].0, init[s].1), (init[t].0, init[t].1)) by {
                assert(init[s] == r[s] && init[t] == r[t]);
            }
            assert forall|a: int, b: int| 0 <= a < b < l.len() implies triple_before(l[a], l[b]) by {
                if b < p.len() {
                    assert(l[a] == p[a] && l[b] == p[b]);
                } else if a >= p.len() {
                    assert(l[a] == blk[a - p.len()] && l[b] == blk[b - p.len()]);
                } else {
                    assert(l[a] == p[a] && l[b] == blk[b - p.len()]);
                    let u = label_source(init, a);
                    assert(label_from(init, p[a], u));
                    assert(init[u] == r[u]);
                    assert(pair_before((r[u].0, r[u].1), (r[r.len() - 1].0, r[r.len() - 1].1)));
                }
            }
        }
    }
}

/// Law: d⁰ has one row per element of each non-empty pairwise
/// intersection: any listing of C¹ (such as the row labels of
/// `build_d0_matrix`) has as many coordinates as the intersections that
/// `nonempty_intersections` lists have elements in all.
pub proof fn law_d0_rows_count(
    cover: Seq<Seq<usize>>,
    pairs: Seq<(usize, usize, Vec<usize>)>,
    labels: Seq<(usize, usize, usize)>,
)
    requires
        is_pair_list(cover, pairs, false),
        is_label_list(cover, labels),
    ensures
        labels.len() == inter_total(pairs),
{
    lemma_pair_labels(pairs);
    let l = pair_labels(pairs);
    assert forall|t: int| 0 <= t < l.len() implies is_cochain_label(cover, #[trigger] l[t]) by {
        let u = label_source(pairs, t);
        assert(label_from(pairs, l[t], u));
        assert(pairs[u].2@ == common_merge(cover[pairs[u].0 as int], cover[pairs[u].1 as int]));
    }
    assert forall|x: (usize, usize, usize)| #[trigger] is_cochain_label(cover, x) implies l.contains(x) by {
        assert(listed(false, common_merge(cover[x.0 as int], cover[x.1 as int])));
        assert(lists_pair(pairs, x.0, x.1));
        let u = choose|u: int| 0 <= u < pairs.len() && pairs[u].0 == x.0 && pairs[u].1 == x.1;
        assert(pairs[u].2@ == common_merge(cover[x.0 as int], cover[x.1 as int]));
        let k = x.2 as int;
        assert(l.contains((pairs[u].0, pairs[u].1, k as usize)));
    }
    lemma_label_list_unique(cover, labels, l);
}

/// Total size of the intersections of a triple list.
pub open spec fn triple_total(r: Seq<(usize, usize, usize, Vec<usize>)>) -> nat
    decreases r.len(),
{
    if r.len() == 0 {
        0
    } else {
        triple_total(r.drop_last()) + r.last().3@.len()
    }
}

/// The C² coordinates of a triple list: `(i, j, k, t)` for each entry
/// `(i, j, k, T)` and each `t < |T|`, entry by entry.
spec fn triple_labels(r: Seq<(usize, usize, usize, Vec<usize>)>) -> Seq<(usize, usize, usize, usize)>
    decreases r.len(),
{
    if r.len() == 0 {
        Seq::empty()
    } else {
        triple_labels(r.drop_last()) + Seq::new(r.last().3@.len(), |t: int| (r.last().0, r.last().1, r.last().2, t as usize))
    }
}

/// The entry of the triple list that label `w` of `triple_labels(r)` comes from.
spec fn triple_source(r: Seq<(usize, usize, usize, Vec<usize>)>, w: int) -> int
    decreases r.len(),
{
    if r.len() == 0 {
        0
    } else if w < triple_labels(r.drop_last()).len() {
        triple_source(r.drop_last(), w)
    } else {
        r.len() - 1
    }
}

/// Label `l` comes from entry `u` of the triple list.
spec fn quad_from(r: Seq<(usize, usize, usize, Vec<usize>)>, l: (usize, usize, usize, usize), u: int) -> bool {
    0 <= u < r.len() && l.0 == r[u].0 && l.1 == r[u].1 && l.2 == r[u].2 && l.3 < r[u].3@.len()
}

/// What `triple_labels` holds, as `lemma_pair_labels` for pairs.
proof fn lemma_triple_labels(r: Seq<(usize, usize, usize, Vec<usize>)>)
    ensures
        triple_labels(r).len() == triple_total(r),
        forall|w: int| 0 <= w < triple_labels(r).len() ==> quad_from(r, #[trigger] triple_labels(r)[w], triple_source(r, w)),
        forall|u: int, k: int| 0 <= u < r.len() && 0 <= k < r[u].3@.len() ==> #[trigger] triple_labels(r).contains((r[u].0, r[u].1, r[u].2, #[trigger] (k as usize))),
        (forall|s: int, t: int| 0 <= s < t < r.len() ==> triple_before((r[s].0, r[s].1, r[s].2), (r[t].0, r[t].1, r[t].2)))
            ==> forall|a: int, b: int| 0 <= a < b < triple_labels(r).len() ==> quad_before(triple_labels(r)[a], triple_labels(r)[b]),
    decreases r.len(),
{
    if r.len() > 0 {
        let init = r.drop_last();
        let e = r.last();
        lemma_triple_labels(init);
        let p = triple_labels(init);
        let blk = Seq::new(e.3@.len(), |t: int| (e.0, e.1, e.2, t as usize));
        let l = triple_labels(r);
        assert(l == p + blk);
        assert(e.3.len() == e.3@.len());
        assert forall|w: int| 0 <= w < l.len() implies quad_from(r, #[trigger] l[w], triple_source(r, w)) by {
            if w < p.len() {
                assert(l[w] == p[w]);
                let u = triple_source(init, w);
                assert(quad_from(init, p[w], u));
                assert(r[u] == init[u]);
            } else {
                assert(l[w] == blk[w - p.len()]);
            }
        }
        assert forall|u: int, k: int| 0 <= u < r.len() && 0 <= k < r[u].3@.len() implies #[trigger] l.contains((r[u].0, r[u].1, r[u].2, #[trigger] (k as usize))) by {
            assert(r[u].3.len() == r[u].3@.len());
            if u < r.len() - 1 {
                assert(r[u] == init[u]);
                assert(p.contains((init[u].0, init[u].1, init[u].2, k as usize)));
                let w = choose|w: int| 0 <= w < p.len() && p[w] == (init[u].0, init[u].1, init[u].2, k as usize);
                assert(l[w] == p[w]);
            } else {
                assert(l[p.len() + k] == blk[k]);
            }
        }
        if forall|s: int, t: int| 0 <= s < t < r.len() ==> triple_before((r[s].0, r[s].1, r[s].2), (r[t].0, r[t].1, r[t].2)) {
            assert forall|s: int, t: int| 0 <= s < t < init.len() implies triple_before((init[s].0, init[s].1, init[s].2), (init[t].0, init[t].1, init[t].2)) by {
                assert(init[s] == r[s] && init[t] == r[t]);
            }
            assert forall|a: int, b: int| 0 <= a < b < l.len() implies quad_before(l[a], l[b]) by {
                if b < p.len() {
                    assert(l[a] == p[a] && l[b] == p[b]);
                } else if a >= p.len() {
                    assert(l[a] == blk[a - p.len()] && l[b] == blk[b - p.len()]);
                } else {
                    assert(l[a] == p[a] && l[b] == blk[b - p.len()]);
                    let u = triple_source(init, a);
                    assert(quad_from(init, p[a], u));
                    assert(init[u] == r[u]);
                    assert(triple_before((r[u].0, r[u].1, r[u].2), (r[r.len() - 1].0, r[r.len() - 1].1, r[r.len() - 1].2)));
                }
            }
        }
    }
}

/// Two lexicographically sorted lists of C² coordinates with the same
/// members are equal.
proof fn lemma_sorted_quads_unique(s1: Seq<(usize, usize, usize, usize)>, s2: Seq<(usize, usize, usize, usize)>)
    requires
        forall|a: int, b: int| 0 <= a < b < s1.len() ==> quad_before(s1[a], s1[b]),
        forall|a: int, b: int| 0 <= a < b < s2.len() ==> quad_before(s2[a], s2[b]),
        forall|l: (usize, usize, usize, usize)| s1.contains(l) <==> s2.contains(l),
    ensures
        s1 == s2,
    decreases s1.len(),
{
    if s1.len() == 0 {
        if s2.len() > 0 {
            assert(s2.contains(s2[0]));
        }
        assert(s1 =~= s2);
    } else {
        assert(s1.contains(s1[0]));
        assert(s2.contains(s2[0]));
        let w2 = choose|w: int| 0 <= w < s2.len() && s2[w] == s1[0];
        let w1 = choose|w: int| 0 <= w < s1.len() && s1[w] == s2[0];
        if w2 > 0 {
            assert(quad_before(s2[0], s2[w2]));
            if w1 > 0 {
                assert(quad_before(s1[0], s1[w1]));
            }
        }
        assert(s1[0] == s2[0]);
        let t1 = s1.drop_first();
        let t2 = s2.drop_first();
        assert forall|l: (usize, usize, usize, usize)| t1.contains(l) <==> t2.contains(l) by {
            if t1.contains(l) {
                let w = choose|w: int| 0 <= w < t1.len() && t1[w] == l;
                assert(s1[w + 1] == l);
                assert(s1.contains(l));
                let v = choose|v: int| 0 <= v < s2.len() && s2[v] == l;
                assert(quad_before(s1[0], s1[w + 1]));
                assert(v != 0);
                assert(t2[v - 1] == l);
            }
            if t2.contains(l) {
                let w = choose|w: int| 0 <= w < t2.len() && t2[w] == l;
                assert(s2[w + 1] == l);
                assert(s2.contains(l));
                let v = choose|v: int| 0 <= v < s1.len() && s1[v] == l;
                assert(quad_before(s2[0], s2[w + 1]));
                assert(v != 0);
                assert(t1[v - 1] == l);
            }
        }
        lemma_sorted_quads_unique(t1, t2);
        assert forall|i: int| 0 <= i < s1.len() implies s1[i] == s2[i] by {
            if i > 0 {
                assert(s1[i] == t1[i - 1]);
                assert(s2[i] == t2[i - 1]);
            }
        }
        assert(s1 =~= s2);
    }
}

/// Law: d¹ has one row per element of each non-empty triple intersection:
/// any listing of C² (such as the row labels of `build_d1_matrix`) has as
/// many coordinates as the intersections that `triple_intersections` lists
/// have elements in all, and none exactly when there are no triple
/// intersections.
pub proof fn law_d1_rows_count(
    cover: Seq<Seq<usize>>,
    triples: Seq<(usize, usize, usize, Vec<usize>)>,
    labels: Seq<(usize, usize, usize, usize)>,
)
    requires
        is_triple_list(cover, triples),
        is_d1_label_list(cover, labels),
    ensures
        labels.len() == triple_total(triples),
        labels.len() == 0 <==> triples.len() == 0,
{
    lemma_triple_labels(triples);
    let l = triple_labels(triples);
    assert forall|x: (usize, usize, usize, usize)| labels.contains(x) <==> l.contains(x) by {
        if labels.contains(x) {
            let w = choose|w: int| 0 <= w < labels.len() && labels[w] == x;
            assert(is_d1_label(cover, labels[w]));
            assert(lists_triple(triples, x.0, x.1, x.2));
            let u = choose|u: int| 0 <= u < triples.len() && triples[u].0 == x.0 && triples[u].1 == x.1 && triples[u].2 == x.2;
            assert(triples[u].3@ == triple_merge(cover, x.0, x.1, x.2));
            let k = x.3 as int;
            assert(l.contains((triples[u].0, triples[u].1, triples[u].2, k as usize)));
        }
        if l.contains(x) {
            let w = choose|w: int| 0 <= w < l.len() && l[w] == x;
            let u = triple_source(triples, w);
            assert(quad_from(triples, l[w], u));
            assert(triples[u].3@ == triple_merge(cover, triples[u].0, triples[u].1, triples[u].2));
            assert(is_d1_label(cover, x));
        }
    }
    lemma_sorted_quads_unique(labels, l);
    if triples.len() > 0 {
        assert(triples[0].3@.len() > 0);
        let k: int = 0;
        assert(l.contains((triples[0].0, triples[0].1, triples[0].2, k as usize)));
    }
}

/// `a - b`, or 0 when `b` is larger.
pub open spec fn monus(a: int, b: int) -> int {
    if a > b {
        a - b
    } else {
        0
    }
}

/// The dimension of H¹ = ker d¹ / im d⁰ from the dimension of C¹ and the
/// ranks of d¹ and d⁰: `dim C¹ - rank d¹ - rank d⁰`, each difference taken
/// as 0 when it would be negative.
pub fn h1_dimension(c1_dim: usize, d1_rank: usize, d0_rank: usize) -> (r: usize)
    ensures
        r == monus(monus(c1_dim as int, d1_rank as int), d0_rank as int),
{
    let ker_d1 = if c1_dim > d1_rank {
        c1_dim - d1_rank
    } else {
        0
    };
    if ker_d1 > d0_rank {
        ker_d1 - d0_rank
    } else {
        0
    }
}

/// In a strictly sorted sequence holding `x`, position `m` holds `x`
/// exactly when it is the first position of `x`.
proof fn lemma_sorted_position(s: Seq<usize>, x: usize, m: int)
    requires
        crate::sorted::strictly_sorted(s),
        s.contains(x),
        0 <= m < s.len(),
    ensures
        s[m] == x <==> m == first_index(s, x),
{
    crate::cover::lemma_first_index_of_member(s, x);
    let f = first_index(s, x);
    if s[m] == x && m != f {
        if m < f {
            assert(s[m] < s[f]);
        } else {
            assert(s[f] < s[m]);
        }
    }
}

/// Law: row `(i, j, k, t)` of d¹ is the cocycle condition at the `t`-th
/// variable `x` of the triple intersection: over the C¹ coordinates it has
/// +1 at the coordinate of `x` in the intersections of `i, j` and of `j, k`,
/// -1 at its coordinate in the intersection of `i, k`, and 0 at every other
/// coordinate (those of other variables, or of other pairs of sets).
pub proof fn law_d1_row_is_cocycle_at_its_variable(
    cover: Seq<Seq<usize>>,
    row: (usize, usize, usize, usize),
    c: (usize, usize, usize),
)
    requires
        crate::cover::all_sorted(cover),
        forall|p: int| 0 <= p < cover.len() ==> #[trigger] cover[p].len() <= usize::MAX,
        is_d1_label(cover, row),
        is_cochain_label(cover, c),
    ensures
        ({
            let (i, j, k) = (row.0, row.1, row.2);
            let x = triple_merge(cover, i, j, k)[row.3 as int];
            d1_entry(cover, row, c) == if label_variable(cover, c) != x {
                0i8
            } else if (c.0 == i && c.1 == j) || (c.0 == j && c.1 == k) {
                1i8
            } else if c.0 == i && c.1 == k {
                -1i8
            } else {
                0i8
            }
        }),
{
    let (i, j, k) = (row.0, row.1, row.2);
    let (ci, cj, ck) = (cover[i as int], cover[j as int], cover[k as int]);
    let x = triple_merge(cover, i, j, k)[row.3 as int];
    let mij = common_merge(ci, cj);
    let mik = common_merge(ci, ck);
    let mjk = common_merge(cj, ck);
    lemma_common_merge_members(mij, ck);
    lemma_common_merge_members(ci, cj);
    assert(mij.contains(x) && ck.contains(x));
    lemma_common_merge_sorted(ci, cj);
    lemma_common_merge_sorted(ci, ck);
    lemma_common_merge_sorted(cj, ck);
    assert(mik.contains(x) && mjk.contains(x));
    lemma_common_merge_len(ci, cj);
    lemma_common_merge_len(ci, ck);
    lemma_common_merge_len(cj, ck);
    crate::cover::lemma_first_index_of_member(mij, x);
    crate::cover::lemma_first_index_of_member(mik, x);
    crate::cover::lemma_first_index_of_member(mjk, x);
    let m = common_merge(cover[c.0 as int], cover[c.1 as int]);
    if c.0 == i && c.1 == j {
        lemma_sorted_position(mij, x, c.2 as int);
    } else if c.0 == i && c.1 == k {
        lemma_sorted_position(mik, x, c.2 as int);
    } else if c.0 == j && c.1 == k {
        lemma_sorted_position(mjk, x, c.2 as int);
    }
}

/// Column `set_offset(q) + p`, `p` a position of set `q`, lies in set `q`'s
/// block only: a column inside another set's block is a different column.
proof fn lemma_block_columns(cover: Seq<Seq<usize>>, q: int, p: int, q2: int, p2: int)
    requires
        0 <= q < cover.len(),
        0 <= p < cover[q].len(),
        0 <= q2 < cover.len(),
        0 <= p2 < cover[q2].len(),
    ensures
        set_offset(cover, q) + p == set_offset(cover, q2) + p2 <==> (q == q2 && p == p2),
{
    if q < q2 {
        lemma_set_offset_monotone(cover, q + 1, q2);
    } else if q2 < q {
        lemma_set_offset_monotone(cover, q2 + 1, q);
    }
}

/// Law: row `(i, j, k)` of d⁰ is the difference of sections `i` and `j` at
/// the `k`-th variable `x` of their intersection: at the C⁰ column of
/// position `p` of set `q` it is +1 when that is `x` in set `i`, -1 when it
/// is `x` in set `j`, and 0 at every other column.
pub proof fn law_d0_row_is_difference_at_its_variable(
    cover: Seq<Seq<usize>>,
    l: (usize, usize, usize),
    q: int,
    p: int,
)
    requires
        crate::cover::all_sorted(cover),
        is_cochain_label(cover, l),
        0 <= q < cover.len(),
        0 <= p < cover[q].len(),
    ensures
        d0_entry(cover, l, set_offset(cover, q) + p) == if cover[q][p] != label_variable(cover, l) {
            0i8
        } else if q == l.0 {
            1i8
        } else if q == l.1 {
            -1i8
        } else {
            0i8
        },
{
    let x = label_variable(cover, l);
    let (i, j) = (l.0 as int, l.1 as int);
    lemma_label_variable_in_sets(cover, l);
    crate::cover::lemma_first_index_of_member(cover[i], x);
    crate::cover::lemma_first_index_of_member(cover[j], x);
    lemma_block_columns(cover, q, p, i, first_index(cover[i], x));
    lemma_block_columns(cover, q, p, j, first_index(cover[j], x));
    if q == i {
        lemma_sorted_position(cover[i], x, p);
    }
    if q == j {
        lemma_sorted_position(cover[j], x, p);
    }
}

/// Distinct positions of a label list hold distinct labels.
proof fn lemma_labels_distinct(cover: Seq<Seq<usize>>, cols: Seq<(usize, usize, usize)>, a: int, b: int)
    requires
        is_label_list(cover, cols),
        0 <= a < cols.len(),
        0 <= b < cols.len(),
        a != b,
    ensures
        cols[a] != cols[b],
{
    if a < b {
        assert(triple_before(cols[a], cols[b]));
    } else {
        assert(triple_before(cols[b], cols[a]));
    }
}

/// Index of `l` in the label list.
fn find_label(labels: &Vec<(usize, usize, usize)>, l: (usize, usize, usize)) -> (r: usize)
    requires
        labels@.contains(l),
    ensures
        r < labels@.len(),
        labels@[r as int] == l,
{
    let mut c: usize = 0;
    while c < labels.len()
        invariant
            c <= labels@.len(),
            labels@.contains(l),
            forall|q: int| 0 <= q < c ==> labels@[q] != l,
        decreases labels@.len() - c,
    {
        let cand = labels[c];
        if cand.0 == l.0 && cand.1 == l.1 && cand.2 == l.2 {
            return c;
        }
        c += 1;
    }
    proof {
        let w = choose|w: int| 0 <= w < labels@.len() && labels@[w] == l;
        assert(labels@[w] != l);
    }
    0
}

/// The d¹ row of C² coordinate `rl`, over the C¹ coordinates `cols`.
fn d1_row(cover: &OpenCover, cols: &Vec<(usize, usize, usize)>, rl: (usize, usize, usize, usize)) -> (r: Vec<i8>)
    requires
        is_label_list(cover@, cols@),
        d1_defined(cover@),
        is_d1_label(cover@, rl),
    ensures
        r@.len() == cols@.len(),
        forall|c: int| 0 <= c < cols@.len() ==> #[trigger] r@[c] == d1_entry(cover@, rl, cols@[c]),
{
    let ghost cv = cover@;
    let (i, j, k, t) = rl;
    let tri = cover.triple_intersection(i, j, k);
    let x = tri[t];
    let mij = cover.intersection(i, j);
    let mik = cover.intersection(i, k);
    let mjk = cover.intersection(j, k);
    proof {
        assert(x == d1_variable(cv, rl));
        lemma_common_merge_members(mij@, cv[k as int]);
        assert(mij@.contains(x));
    }
    let mut row = zero_row(cols.len());
    let pij = match position_of(mij.as_slice(), x) {
        Some(p) => p,
        None => 0,
    };
    let lij = (i, j, pij);
    proof {
        assert(lij == pair_coordinate(cv, i, j, x));
        assert(is_cochain_label(cv, lij));
    }
    let cij = find_label(cols, lij);
    row.set(cij, 1);
    let ghost cik_g: int = -1;
    let ghost cjk_g: int = -1;
    if mik.len() > 0 {
        let pik = match position_of(mik.as_slice(), x) {
            Some(p) => p,
            None => 0,
        };
        let lik = (i, k, pik);
        proof {
            assert(mik@.contains(x));
            assert(lik == pair_coordinate(cv, i, k, x));
            assert(is_cochain_label(cv, lik));
        }
        let cik = find_label(cols, lik);
        row.set(cik, -1);
        proof { cik_g = cik as int; }
    }
    if mjk.len() > 0 {
        let pjk = match position_of(mjk.as_slice(), x) {
            Some(p) => p,
            None => 0,
        };
        let ljk = (j, k, pjk);
        proof {
            assert(mjk@.contains(x));
            assert(ljk == pair_coordinate(cv, j, k, x));
            assert(is_cochain_label(cv, ljk));
        }
        let cjk = find_label(cols, ljk);
        row.set(cjk, 1);
        proof { cjk_g = cjk as int; }
    }
    proof {
        assert forall|c: int| 0 <= c < cols@.len() implies #[trigger] row@[c] == d1_entry(cv, rl, cols@[c]) by {
            if c != cij {
                lemma_labels_distinct(cv, cols@, c, cij as int);
            }
            if mik@.len() > 0 && c != cik_g {
                lemma_labels_distinct(cv, cols@, c, cik_g);
            }
            if mjk@.len() > 0 && c != cjk_g {
                lemma_labels_distinct(cv, cols@, c, cjk_g);
            }
        }
    }
    row
}

/// The Čech coboundary d¹ : C¹ → C² as a matrix with one row per C²
/// coordinate (labelled `(i, j, k, t)`: the `t`-th element of the triple
/// intersection of sets `i < j < k`, in lexicographic order) and one
/// column per C¹ coordinate, in the order of any C¹ label list (there is
/// only one, `lemma_label_list_unique`). The row holds the cocycle
/// condition `diff_ij - diff_ik + diff_jk` at that variable.
pub fn build_d1_matrix(cover: &OpenCover) -> (r: (Vec<Vec<i8>>, Vec<(usize, usize, usize, usize)>))
    requires
        d1_defined(cover@),
    ensures
        is_d1_label_list(cover@, r.1@),
        r.0@.len() == r.1@.len(),
        forall|cols: Seq<(usize, usize, usize)>, t: int| #![trigger is_label_list(cover@, cols), r.0@[t]]
            is_label_list(cover@, cols) && 0 <= t < r.1@.len() ==> r.0@[t]@.len() == cols.len(),
        forall|cols: Seq<(usize, usize, usize)>, t: int, c: int| #![trigger is_label_list(cover@, cols), r.0@[t]@[c]]
            is_label_list(cover@, cols) && 0 <= t < r.1@.len() && 0 <= c < cols.len()
                ==> r.0@[t]@[c] == d1_entry(cover@, r.1@[t], cols[c]),
{
    let ghost cv = cover@;
    let (_, cols) = d0_rows_and_labels(cover, false);
    let triples = cover.triple_intersections();
    let mut mat: Vec<Vec<i8>> = Vec::new();
    let mut labels: Vec<(usize, usize, usize, usize)> = Vec::new();
    let mut u: usize = 0;
    while u < triples.len()
        invariant
            cv == cover@,
            is_triple_list(cv, triples@),
            is_label_list(cv, cols@),
            d1_defined(cv),
            u <= triples@.len(),
            mat@.len() == labels@.len(),
            forall|q: int| 0 <= q < labels@.len() ==> is_d1_label(cv, #[trigger] labels@[q]),
            forall|s: int, q: int| 0 <= s < q < labels@.len() ==> quad_before(labels@[s], labels@[q]),
            forall|q: int, w: int|
                #![trigger labels@[q], triples@[w]]
                0 <= q < labels@.len() && u <= w < triples@.len() ==> quad_before(labels@[q], (triples@[w].0, triples@[w].1, triples@[w].2, 0)),
            forall|l: (usize, usize, usize, usize), w: int|
                #![trigger is_d1_label(cv, l), triples@[w]]
                is_d1_label(cv, l) && 0 <= w < u && triples@[w].0 == l.0 && triples@[w].1 == l.1 && triples@[w].2 == l.2 ==> labels@.contains(l),
            forall|q: int| 0 <= q < labels@.len() ==> (#[trigger] mat@[q])@.len() == cols@.len(),
            forall|q: int, c: int| 0 <= q < labels@.len() && 0 <= c < cols@.len() ==> #[trigger] mat@[q]@[c] == d1_entry(cv, labels@[q], cols@[c]),
        decreases triples@.len() - u,
    {
        let i = triples[u].0;
        let j = triples[u].1;
        let k = triples[u].2;
        let n_t = triples[u].3.len();
        let mut t: usize = 0;
        while t < n_t
            invariant
                cv == cover@,
                is_triple_list(cv, triples@),
                is_label_list(cv, cols@),
                d1_defined(cv),
                u < triples@.len(),
                i == triples@[u as int].0,
                j == triples@[u as int].1,
                k == triples@[u as int].2,
                n_t == triple_merge(cv, i, j, k).len(),
                i < j < k < cv.len(),
                t <= n_t,
                mat@.len() == labels@.len(),
                forall|q: int| 0 <= q < labels@.len() ==> is_d1_label(cv, #[trigger] labels@[q]),
                forall|s: int, q: int| 0 <= s < q < labels@.len() ==> quad_before(labels@[s], labels@[q]),
                forall|q: int| 0 <= q < labels@.len() ==> quad_before(#[trigger] labels@[q], (i, j, k, t)),
                forall|l: (usize, usize, usize, usize), w: int|
                    #![trigger is_d1_label(cv, l), triples@[w]]
                    is_d1_label(cv, l) && 0 <= w < u && triples@[w].0 == l.0 && triples@[w].1 == l.1 && triples@[w].2 == l.2 ==> labels@.contains(l),
                forall|l: (usize, usize, usize, usize)|
                    #[trigger] is_d1_label(cv, l) && l.0 == i && l.1 == j && l.2 == k && l.3 < t ==> labels@.contains(l),
                forall|q: int| 0 <= q < labels@.len() ==> (#[trigger] mat@[q])@.len() == cols@.len(),
                forall|q: int, c: int| 0 <= q < labels@.len() && 0 <= c < cols@.len() ==> #[trigger] mat@[q]@[c] == d1_entry(cv, labels@[q], cols@[c]),
            decreases n_t - t,
        {
            let rl = (i, j, k, t);
            let row = d1_row(cover, &cols, rl);
            let ghost old_labels = labels@;
            let ghost old_mat = mat@;
            mat.push(row);
            labels.push(rl);
            proof {
                assert forall|q: int, c: int| 0 <= q < labels@.len() && 0 <= c < cols@.len() implies #[trigger] mat@[q]@[c] == d1_entry(cv, labels@[q], cols@[c]) by {
                    if q < old_labels.len() {
                        assert(mat@[q] == old_mat[q]);
                    }
                }
                assert forall|l: (usize, usize, usize, usize)|
                    #[trigger] is_d1_label(cv, l) && l.0 == i && l.1 == j && l.2 == k && l.3 < t + 1 implies labels@.contains(l) by {
                    if l.3 == t {
                        assert(labels@[labels@.len() - 1] == l);
                    } else {
                        assert(old_labels.contains(l));
                        let q = choose|q: int| 0 <= q < old_labels.len() && old_labels[q] == l;
                        assert(labels@[q] == l);
                    }
                }
                assert forall|l: (usize, usize, usize, usize), w: int|
                    #![trigger is_d1_label(cv, l), triples@[w]]
                    is_d1_label(cv, l) && 0 <= w < u && triples@[w].0 == l.0 && triples@[w].1 == l.1 && triples@[w].2 == l.2 implies labels@.contains(l) by {
                    assert(old_labels.contains(l));
                    let q = choose|q: int| 0 <= q < old_labels.len() && old_labels[q] == l;
                    assert(labels@[q] == l);
                }
            }
            t += 1;
        }
        proof {
            assert forall|l: (usize, usize, usize, usize), w: int|
                #![trigger is_d1_label(cv, l), triples@[w]]
                is_d1_label(cv, l) && 0 <= w < u + 1 && triples@[w].0 == l.0 && triples@[w].1 == l.1 && triples@[w].2 == l.2 implies labels@.contains(l) by {
            }
            assert forall|q: int, w: int|
                #![trigger labels@[q], triples@[w]]
                0 <= q < labels@.len() && u + 1 <= w < triples@.len() implies quad_before(labels@[q], (triples@[w].0, triples@[w].1, triples@[w].2, 0)) by {
                assert(triple_before((triples@[u as int].0, triples@[u as int].1, triples@[u as int].2), (triples@[w].0, triples@[w].1, triples@[w].2)));
                assert(quad_before(labels@[q], (i, j, k, t)));
            }
        }
        u += 1;
    }
    proof {
        assert forall|l: (usize, usize, usize, usize)| #[trigger] is_d1_label(cv, l) implies labels@.contains(l) by {
            assert(lists_triple(triples@, l.0, l.1, l.2));
            let w = choose|w: int| 0 <= w < triples@.len() && triples@[w].0 == l.0 && triples@[w].1 == l.1 && triples@[w].2 == l.2;
            assert(triples@[w].0 == l.0);
        }
        assert forall|other: Seq<(usize, usize, usize)>| is_label_list(cv, other) implies other == cols@ by {
            lemma_label_list_unique(cv, other, cols@);
        }
    }
    (mat, labels)
}

/// The d¹ condition for one C² coordinate: its variable lies in each
/// non-empty intersection of two of its sets.
pub open spec fn d1_defined_at(cover: Seq<Seq<usize>>, l: (usize, usize, usize, usize)) -> bool {
    let x = d1_variable(cover, l);
    &&& (common_merge(cover[l.0 as int], cover[l.2 as int]).len() > 0 ==> common_merge(cover[l.0 as int], cover[l.2 as int]).contains(x))
    &&& (common_merge(cover[l.1 as int], cover[l.2 as int]).len() > 0 ==> common_merge(cover[l.1 as int], cover[l.2 as int]).contains(x))
}

/// Whether d¹ can be built for this cover: decides `d1_defined`.
pub fn can_build_d1(cover: &OpenCover) -> (r: bool)
    ensures
        r == d1_defined(cover@),
{
    let ghost cv = cover@;
    let triples = cover.triple_intersections();
    let mut u: usize = 0;
    while u < triples.len()
        invariant
            cv == cover@,
            is_triple_list(cv, triples@),
            u <= triples@.len(),
            forall|l: (usize, usize, usize, usize), w: int|
                #![trigger is_d1_label(cv, l), triples@[w]]
                is_d1_label(cv, l) && 0 <= w < u && triples@[w].0 == l.0 && triples@[w].1 == l.1 && triples@[w].2 == l.2 ==> d1_defined_at(cv, l),
        decreases triples@.len() - u,
    {
        let i = triples[u].0;
        let j = triples[u].1;
        let k = triples[u].2;
        let tri = &triples[u].3;
        let mik = cover.intersection(i, k);
        let mjk = cover.intersection(j, k);
        let mut t: usize = 0;
        while t < tri.len()
            invariant
                cv == cover@,
                is_triple_list(cv, triples@),
                u < triples@.len(),
                i == triples@[u as int].0,
                j == triples@[u as int].1,
                k == triples@[u as int].2,
                tri@ == triple_merge(cv, i, j, k),
                i < j < k < cv.len(),
                mik@ == common_merge(cv[i as int], cv[k as int]),
                mjk@ == common_merge(cv[j as int], cv[k as int]),
                t <= tri@.len(),
                forall|l: (usize, usize, usize, usize), w: int|
                    #![trigger is_d1_label(cv, l), triples@[w]]
                    is_d1_label(cv, l) && 0 <= w < u && triples@[w].0 == l.0 && triples@[w].1 == l.1 && triples@[w].2 == l.2 ==> d1_defined_at(cv, l),
                forall|l: (usize, usize, usize, usize)|
                    #[trigger] is_d1_label(cv, l) && l.0 == i && l.1 == j && l.2 == k && l.3 < t ==> d1_defined_at(cv, l),
            decreases tri@.len() - t,
        {
            let x = tri[t];
            let l = (i, j, k, t);
            assert(d1_variable(cv, l) == x);
            if mik.len() > 0 {
                if position_of(mik.as_slice(), x).is_none() {
                    assert(is_d1_label(cv, l) && !d1_defined_at(cv, l));
                    return false;
                }
            }
            if mjk.len() > 0 {
                if position_of(mjk.as_slice(), x).is_none() {
                    assert(is_d1_label(cv, l) && !d1_defined_at(cv, l));
                    return false;
                }
            }
            assert(d1_defined_at(cv, l));
            t += 1;
        }
        u += 1;
    }
    proof {
        assert forall|l: (usize, usize, usize, usize)| #[trigger] is_d1_label(cv, l) implies d1_defined_at(cv, l) by {
            assert(lists_triple(triples@, l.0, l.1, l.2));
            let w = choose|w: int| 0 <= w < triples@.len() && triples@[w].0 == l.0 && triples@[w].1 == l.1 && triples@[w].2 == l.2;
            assert(triples@[w].0 == l.0);
        }
    }
    true
}

} // verus!
