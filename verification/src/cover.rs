//! Open covers of the shared state space and restriction maps.
//!
//! An `OpenCover` lists, for every agent, the state-variable indices it can
//! observe. Intersections of these sets are where agents' views overlap.

use vstd::prelude::*;
use crate::sorted::{
    strictly_sorted, common_merge, normalized, merge_common, insert_sorted, sort_dedup,
    lemma_common_merge_sorted, lemma_sorted_unique, lemma_normalized,
    lemma_normalized_of_sorted,
};

verus! {

/// An open cover of the global state space: `sets[i]` lists the variable
/// indices visible to agent `i`, normally sorted and without repeats.
#[derive(Debug, Clone, PartialEq)]
pub struct OpenCover {
    pub sets: Vec<Vec<usize>>,
}

impl View for OpenCover {
    type V = Seq<Seq<usize>>;

    open spec fn view(&self) -> Seq<Seq<usize>> {
        self.sets@.map_values(|s: Vec<usize>| s@)
    }
}

/// The index sequences held by a vector of index vectors.
pub open spec fn sets_view(sets: Seq<Vec<usize>>) -> Seq<Seq<usize>> {
    sets.map_values(|s: Vec<usize>| s@)
}

/// What `OpenCover::new` makes of the given sets: each set sorted with its
/// repeats removed, and a single empty set in place of no sets at all.
pub open spec fn normalized_sets(input: Seq<Seq<usize>>) -> Seq<Seq<usize>> {
    if input.len() == 0 {
        seq![Seq::<usize>::empty()]
    } else {
        input.map_values(|s: Seq<usize>| normalized(s))
    }
}

/// Every set is strictly sorted.
pub open spec fn all_sorted(sets: Seq<Seq<usize>>) -> bool {
    forall|i: int| 0 <= i < sets.len() ==> strictly_sorted(#[trigger] sets[i])
}

/// All indices that occur in at least one set.
pub open spec fn union_of(sets: Seq<Seq<usize>>) -> Set<usize> {
    Set::new(|x: usize| exists|i: int| 0 <= i < sets.len() && #[trigger] sets[i].contains(x))
}

/// Every index below a member of `s` is a member too, so `s` is `{0, .., n-1}`
/// for some `n`.
pub open spec fn downward_closed(s: Set<usize>) -> bool {
    forall|x: usize, y: usize| #[trigger] s.contains(x) && y <= x ==> #[trigger] s.contains(y)
}

/// `(a.0, a.1)` comes strictly before `(b.0, b.1)` in lexicographic order.
pub open spec fn pair_before(a: (usize, usize), b: (usize, usize)) -> bool {
    a.0 < b.0 || (a.0 == b.0 && a.1 < b.1)
}

/// `(a.0, a.1, a.2)` comes strictly before `(b.0, b.1, b.2)` in lexicographic order.
pub open spec fn triple_before(a: (usize, usize, usize), b: (usize, usize, usize)) -> bool {
    a.0 < b.0 || (a.0 == b.0 && (a.1 < b.1 || (a.1 == b.1 && a.2 < b.2)))
}

/// Some entry of `r` is labelled with the pair `(i, j)`.
pub open spec fn lists_pair(r: Seq<(usize, usize, Vec<usize>)>, i: usize, j: usize) -> bool {
    exists|t: int| 0 <= t < r.len() && r[t].0 == i && r[t].1 == j
}

/// Some entry of `r` is labelled with the triple `(i, j, k)`.
pub open spec fn lists_triple(
    r: Seq<(usize, usize, usize, Vec<usize>)>,
    i: usize,
    j: usize,
    k: usize,
) -> bool {
    exists|t: int| 0 <= t < r.len() && r[t].0 == i && r[t].1 == j && r[t].2 == k
}

/// An intersection is listed when empty ones are kept or when it is non-empty.
pub open spec fn listed(keep_empty: bool, v: Seq<usize>) -> bool {
    keep_empty || v.len() > 0
}

/// The list of pairwise intersections of `cover` with `i < j`, in
/// lexicographic order of `(i, j)`: all of them when `keep_empty`, else
/// exactly the non-empty ones.
pub open spec fn is_pair_list(
    cover: Seq<Seq<usize>>,
    r: Seq<(usize, usize, Vec<usize>)>,
    keep_empty: bool,
) -> bool {
    &&& forall|t: int|
        0 <= t < r.len() ==> {
            &&& (#[trigger] r[t]).0 < r[t].1 < cover.len()
            &&& r[t].2@ == common_merge(cover[r[t].0 as int], cover[r[t].1 as int])
            &&& listed(keep_empty, r[t].2@)
        }
    &&& forall|s: int, t: int|
        0 <= s < t < r.len() ==> pair_before((r[s].0, r[s].1), (r[t].0, r[t].1))
    &&& forall|i: usize, j: usize|
        i < j < cover.len() && listed(keep_empty, common_merge(cover[i as int], cover[j as int]))
            ==> #[trigger] lists_pair(r, i, j)
}

/// Number of pairs `(a, b)` with `a < i` and `a < b < n`.
pub open spec fn pairs_upto(n: int, i: int) -> int
    decreases i,
{
    if i <= 0 {
        0
    } else {
        pairs_upto(n, i - 1) + (n - i)
    }
}

/// `2 * pairs_upto(n, i) == i * (2n - i - 1)`; at `i == n`, `n (n - 1) / 2`.
proof fn lemma_pairs_upto(n: int, i: int)
    requires
        0 <= i <= n,
    ensures
        2 * pairs_upto(n, i) == i * (2 * n - i - 1),
        i == n ==> pairs_upto(n, i) == n * (n - 1) / 2,
    decreases i,
{
    if i > 0 {
        lemma_pairs_upto(n, i - 1);
        assert(pairs_upto(n, i) == pairs_upto(n, i - 1) + (n - i));
        assert(i * (2 * n - i - 1) == (i - 1) * (2 * n - (i - 1) - 1) + 2 * (n - i)) by (nonlinear_arith);
    } else {
        assert(i * (2 * n - i - 1) == 0) by (nonlinear_arith)
            requires
                i == 0,
        ;
    }
    if i == n {
        assert(n * (2 * n - n - 1) == n * (n - 1)) by (nonlinear_arith);
    }
}

/// The list of non-empty triple intersections of `cover` with `i < j < k`,
/// in lexicographic order of `(i, j, k)`.
pub open spec fn is_triple_list(
    cover: Seq<Seq<usize>>,
    r: Seq<(usize, usize, usize, Vec<usize>)>,
) -> bool {
    &&& forall|t: int|
        0 <= t < r.len() ==> {
            &&& (#[trigger] r[t]).0 < r[t].1 < r[t].2 < cover.len()
            &&& r[t].3@ == triple_merge(cover, r[t].0, r[t].1, r[t].2)
            &&& r[t].3@.len() > 0
        }
    &&& forall|s: int, t: int|
        0 <= s < t < r.len() ==> triple_before(
            (r[s].0, r[s].1, r[s].2),
            (r[t].0, r[t].1, r[t].2),
        )
    &&& forall|i: usize, j: usize, k: usize|
        i < j < k < cover.len() && triple_merge(cover, i, j, k).len() > 0
            ==> #[trigger] lists_triple(r, i, j, k)
}

/// What `triple_intersection(i, j, k)` computes: the merge of the merge.
pub open spec fn triple_merge(cover: Seq<Seq<usize>>, i: usize, j: usize, k: usize) -> Seq<usize> {
    common_merge(common_merge(cover[i as int], cover[j as int]), cover[k as int])
}

/// Position of the first occurrence of `x` in `s`.
#[verifier::opaque]
pub open spec fn first_index(s: Seq<usize>, x: usize) -> int {
    choose|m: int| 0 <= m < s.len() && s[m] == x && forall|m2: int| 0 <= m2 < m ==> s[m2] != x
}

/// A position holding `x` with no `x` before it is the first occurrence.
pub proof fn lemma_first_index(s: Seq<usize>, x: usize, m: int)
    requires
        0 <= m < s.len(),
        s[m] == x,
        forall|m2: int| 0 <= m2 < m ==> s[m2] != x,
    ensures
        first_index(s, x) == m,
{
    reveal(first_index);
    let f = first_index(s, x);
    assert(0 <= f < s.len() && s[f] == x && forall|m2: int| 0 <= m2 < f ==> s[m2] != x);
    if f < m {
    } else if f > m {
    }
}

/// When `x` occurs in `s`, `first_index(s, x)` is its first position.
pub proof fn lemma_first_index_of_member(s: Seq<usize>, x: usize)
    requires
        s.contains(x),
    ensures
        0 <= first_index(s, x) < s.len(),
        s[first_index(s, x)] == x,
        forall|m2: int| 0 <= m2 < first_index(s, x) ==> s[m2] != x,
    decreases s.len(),
{
    let init = s.drop_last();
    if init.contains(x) {
        lemma_first_index_of_member(init, x);
        let m = first_index(init, x);
        assert forall|m2: int| 0 <= m2 < m implies s[m2] != x by {
            assert(s[m2] == init[m2]);
        }
        lemma_first_index(s, x, m);
    } else {
        let w = choose|w: int| 0 <= w < s.len() && s[w] == x;
        if w < s.len() - 1 {
            assert(init[w] == x);
        }
        assert forall|m2: int| 0 <= m2 < s.len() - 1 implies s[m2] != x by {
            if s[m2] == x {
                assert(init[m2] == x);
            }
        }
        lemma_first_index(s, x, s.len() - 1);
    }
}

/// Position of the first occurrence of `x` in `s`, if any.
pub fn position_of(s: &[usize], x: usize) -> (r: Option<usize>)
    ensures
        match r {
            Some(m) => m < s@.len() && s@[m as int] == x && m == first_index(s@, x),
            None => !s@.contains(x),
        },
{
    let mut m: usize = 0;
    while m < s.len()
        invariant
            m <= s@.len(),
            forall|m2: int| 0 <= m2 < m ==> s@[m2] != x,
        decreases s@.len() - m,
    {
        if s[m] == x {
            proof {
                lemma_first_index(s@, x, m as int);
            }
            return Some(m);
        }
        m += 1;
    }
    None
}

/// A strictly sorted sequence of naturals has `u[k] >= k`.
proof fn lemma_sorted_at_least_index(u: Seq<usize>, k: int)
    requires
        strictly_sorted(u),
        0 <= k < u.len(),
    ensures
        u[k] >= k,
    decreases k,
{
    if k > 0 {
        lemma_sorted_at_least_index(u, k - 1);
    }
}

/// In a strictly sorted sequence, `u[k]` stays below the last element by at
/// least the number of positions between them.
proof fn lemma_sorted_below_last(u: Seq<usize>, k: int)
    requires
        strictly_sorted(u),
        0 <= k < u.len(),
    ensures
        u[k] + (u.len() - 1 - k) <= u[u.len() - 1],
    decreases u.len() - k,
{
    if k < u.len() - 1 {
        lemma_sorted_below_last(u, k + 1);
    }
}

/// A strictly sorted sequence whose elements form a downward-closed set is
/// `0, 1, 2, ..`.
proof fn lemma_downward_closed_identity(u: Seq<usize>, k: int)
    requires
        strictly_sorted(u),
        downward_closed(u.to_set()),
        0 <= k < u.len(),
    ensures
        u[k] == k,
    decreases k,
{
    if k > 0 {
        lemma_downward_closed_identity(u, k - 1);
    }
    lemma_sorted_at_least_index(u, k);
    assert(u.to_set().contains(u[k]));
    let kk = k as usize;
    assert(u.to_set().contains(kk));
    let w = choose|w: int| 0 <= w < u.len() && u[w] == kk;
    if w < k {
        if w < k - 1 {
            assert(u[w] < u[k - 1]);
        }
    } else if w > k {
        assert(u[k] < u[w]);
    }
}

/// Law: a cover is valid (no gaps) exactly when its universe is
/// `0, 1, .., size - 1`, where `u` is the universe as `universe` returns it
/// (sorted, holding the covered indices) and `size` its length
/// (`universe_size`).
pub proof fn law_valid_cover_iff_universe_is_range(cover: Seq<Seq<usize>>, u: Seq<usize>)
    requires
        strictly_sorted(u),
        u.to_set() == union_of(cover),
    ensures
        downward_closed(union_of(cover)) <==> u == Seq::new(u.len(), |k: int| k as usize),
{
    if downward_closed(union_of(cover)) {
        assert forall|k: int| 0 <= k < u.len() implies u[k] == k as usize by {
            lemma_downward_closed_identity(u, k);
        }
        assert(u =~= Seq::new(u.len(), |k: int| k as usize));
    }
    if u == Seq::new(u.len(), |k: int| k as usize) {
        assert forall|x: usize, y: usize|
            #[trigger] union_of(cover).contains(x) && y <= x implies #[trigger] union_of(cover).contains(y) by {
            assert(u.to_set().contains(x));
            let w = choose|w: int| 0 <= w < u.len() && u[w] == x;
            assert(u[y as int] == y);
            assert(u.to_set().contains(y));
        }
    }
}

/// On a cover of sorted sets, the pairwise intersection holds exactly the
/// indices common to both sets, in increasing order.
pub proof fn law_intersection_is_common(cover: Seq<Seq<usize>>, i: int, j: int)
    requires
        all_sorted(cover),
        0 <= i < cover.len(),
        0 <= j < cover.len(),
    ensures
        strictly_sorted(common_merge(cover[i], cover[j])),
        forall|x: usize| #[trigger] common_merge(cover[i], cover[j]).contains(x) <==> (cover[i].contains(x) && cover[j].contains(x)),
{
    lemma_common_merge_sorted(cover[i], cover[j]);
}

/// On a cover of sorted sets, `intersection(i, j) == intersection(j, i)`.
pub proof fn law_intersection_symmetric(cover: Seq<Seq<usize>>, i: int, j: int)
    requires
        all_sorted(cover),
        0 <= i < cover.len(),
        0 <= j < cover.len(),
    ensures
        common_merge(cover[i], cover[j]) == common_merge(cover[j], cover[i]),
{
    lemma_common_merge_sorted(cover[i], cover[j]);
    lemma_common_merge_sorted(cover[j], cover[i]);
    assert(common_merge(cover[i], cover[j]).to_set() =~= common_merge(cover[j], cover[i]).to_set());
    lemma_sorted_unique(common_merge(cover[i], cover[j]), common_merge(cover[j], cover[i]));
}

/// On a cover of sorted sets, the triple intersection holds exactly the
/// indices common to all three sets, in increasing order.
pub proof fn law_triple_intersection_is_common(cover: Seq<Seq<usize>>, i: usize, j: usize, k: usize)
    requires
        all_sorted(cover),
        i < cover.len(),
        j < cover.len(),
        k < cover.len(),
    ensures
        strictly_sorted(triple_merge(cover, i, j, k)),
        forall|x: usize| #[trigger] triple_merge(cover, i, j, k).contains(x) <==> (cover[i as int].contains(x) && cover[j as int].contains(x) && cover[k as int].contains(x)),
{
    lemma_common_merge_sorted(cover[i as int], cover[j as int]);
    lemma_common_merge_sorted(common_merge(cover[i as int], cover[j as int]), cover[k as int]);
}

/// Normalizing a cover twice is normalizing it once: `OpenCover::new` leaves
/// the sets of a cover it made unchanged.
pub proof fn law_new_idempotent(input: Seq<Seq<usize>>)
    ensures
        normalized_sets(normalized_sets(input)) == normalized_sets(input),
        all_sorted(normalized_sets(input)),
{
    let n = normalized_sets(input);
    assert forall|t: int| 0 <= t < n.len() implies strictly_sorted(#[trigger] n[t]) && normalized(n[t]) == n[t] by {
        if input.len() == 0 {
            assert(n[t] == Seq::<usize>::empty());
            lemma_normalized_of_sorted(n[t], n[t]);
        } else {
            lemma_normalized(input[t]);
            lemma_normalized_of_sorted(n[t], n[t]);
        }
    }
    assert(normalized_sets(n) =~= n);
}

/// The size of the universe is the length of the sorted universe.
pub proof fn law_universe_size_is_universe_len(cover: Seq<Seq<usize>>, u: Seq<usize>)
    requires
        strictly_sorted(u),
        u.to_set() == union_of(cover),
    ensures
        u.len() == union_of(cover).len(),
{
    assert(u.no_duplicates()) by {
        assert forall|a: int, b: int| 0 <= a < u.len() && 0 <= b < u.len() && a != b implies u[a] != u[b] by {
            if a < b {
            } else {
            }
        }
    }
    u.unique_seq_to_set();
}

/// The non-empty intersections are the pairwise intersections with the
/// empty ones left out: every listed non-empty entry is a pairwise entry, and
/// every non-empty pairwise entry is listed.
pub proof fn law_nonempty_within_pairwise(
    cover: Seq<Seq<usize>>,
    all: Seq<(usize, usize, Vec<usize>)>,
    nonempty: Seq<(usize, usize, Vec<usize>)>,
)
    requires
        is_pair_list(cover, all, true),
        is_pair_list(cover, nonempty, false),
    ensures
        forall|t: int| 0 <= t < nonempty.len() ==> #[trigger] lists_pair(all, nonempty[t].0, nonempty[t].1),
        forall|s: int| 0 <= s < all.len() && (#[trigger] all[s]).2@.len() > 0 ==> lists_pair(nonempty, all[s].0, all[s].1),
        forall|s: int, t: int| 0 <= s < all.len() && 0 <= t < nonempty.len() && all[s].0 == nonempty[t].0 && all[s].1 == nonempty[t].1 ==> #[trigger] all[s].2@ == #[trigger] nonempty[t].2@,
{
    assert forall|t: int| 0 <= t < nonempty.len() implies #[trigger] lists_pair(all, nonempty[t].0, nonempty[t].1) by {
        assert(listed(true, common_merge(cover[nonempty[t].0 as int], cover[nonempty[t].1 as int])));
    }
    assert forall|s: int| 0 <= s < all.len() && (#[trigger] all[s]).2@.len() > 0 implies lists_pair(nonempty, all[s].0, all[s].1) by {
        assert(listed(false, common_merge(cover[all[s].0 as int], cover[all[s].1 as int])));
    }
}

impl OpenCover {
    /// Create a cover from index sets: each set is sorted and its repeats
    /// removed; an empty list becomes a single empty set.
    pub fn new(sets: Vec<Vec<usize>>) -> (r: Self)
        ensures
            r@ == normalized_sets(sets_view(sets@)),
            all_sorted(r@),
            r@.len() >= 1,
    {
        let mut out: Vec<Vec<usize>> = Vec::new();
        let mut i: usize = 0;
        while i < sets.len()
            invariant
                i <= sets.len(),
                out@.len() == i,
                forall|t: int|
                    0 <= t < i ==> (#[trigger] out@[t])@ == normalized(sets@[t]@) && strictly_sorted(
                        out@[t]@,
                    ),
            decreases sets.len() - i,
        {
            let s = sort_dedup(&sets[i]);
            out.push(s);
            i += 1;
        }
        if out.len() == 0 {
            out.push(Vec::new());
            let r = OpenCover { sets: out };
            assert(r@ =~= normalized_sets(sets_view(sets@)));
            r
        } else {
            let r = OpenCover { sets: out };
            assert(r@ =~= normalized_sets(sets_view(sets@)));
            r
        }
    }

    /// Trivial cover: a single set holding all indices `0..n`.
    pub fn trivial(n: usize) -> (r: Self)
        ensures
            r@ == seq![Seq::new(n as nat, |i: int| i as usize)],
    {
        let mut s: Vec<usize> = Vec::new();
        let mut i: usize = 0;
        while i < n
            invariant
                i <= n,
                s@ == Seq::new(i as nat, |t: int| t as usize),
            decreases n - i,
        {
            s.push(i);
            i += 1;
            assert(s@ =~= Seq::new(i as nat, |t: int| t as usize));
        }
        let mut sets: Vec<Vec<usize>> = Vec::new();
        sets.push(s);
        let r = OpenCover { sets };
        assert(r@ =~= seq![Seq::new(n as nat, |i: int| i as usize)]);
        r
    }

    /// Number of open sets (agents).
    pub fn num_sets(&self) -> (r: usize)
        ensures
            r == self@.len(),
    {
        self.sets.len()
    }

    /// The sorted list of every index that occurs in some set.
    pub fn universe(&self) -> (r: Vec<usize>)
        ensures
            strictly_sorted(r@),
            r@.to_set() == union_of(self@),
    {
        let mut r: Vec<usize> = Vec::new();
        let mut i: usize = 0;
        let ghost cv = self@;
        assert(r@.to_set() =~= union_of(cv.take(0)));
        while i < self.sets.len()
            invariant
                i <= self.sets.len(),
                cv == self@,
                strictly_sorted(r@),
                r@.to_set() == union_of(cv.take(i as int)),
            decreases self.sets.len() - i,
        {
            let set = &self.sets[i];
            let mut j: usize = 0;
            assert(cv[i as int] == set@);
            assert(r@.to_set() =~= union_of(cv.take(i as int)).union(set@.take(0).to_set()));
            while j < set.len()
                invariant
                    j <= set@.len(),
                    strictly_sorted(r@),
                    r@.to_set() == union_of(cv.take(i as int)).union(set@.take(j as int).to_set()),
                decreases set@.len() - j,
            {
                insert_sorted(&mut r, set[j]);
                proof {
                    assert(set@.take(j + 1) =~= set@.take(j as int).push(set@[j as int]));
                    set@.take(j as int).lemma_push_to_set_commute(set@[j as int]);
                    assert(r@.to_set() =~= union_of(cv.take(i as int)).union(
                        set@.take(j + 1).to_set(),
                    ));
                }
                j += 1;
            }
            proof {
                assert(set@.take(set@.len() as int) =~= set@);
                assert forall|x: usize|
                    union_of(cv.take(i + 1)).contains(x) <==> union_of(cv.take(i as int)).union(
                        set@.to_set(),
                    ).contains(x) by {
                    if union_of(cv.take(i + 1)).contains(x) {
                        let a = choose|a: int|
                            0 <= a < cv.take(i + 1).len() && #[trigger] cv.take(i + 1)[a].contains(
                                x,
                            );
                        if a < i {
                            assert(cv.take(i as int)[a] == cv.take(i + 1)[a]);
                        }
                    }
                    if union_of(cv.take(i as int)).contains(x) {
                        let a = choose|a: int|
                            0 <= a < cv.take(i as int).len() && #[trigger] cv.take(
                                i as int,
                            )[a].contains(x);
                        assert(cv.take(i + 1)[a] == cv.take(i as int)[a]);
                    }
                    if set@.to_set().contains(x) {
                        assert(cv.take(i + 1)[i as int] == set@);
                    }
                }
                assert(union_of(cv.take(i + 1)) =~= union_of(cv.take(i as int)).union(
                    set@.to_set(),
                ));
            }
            i += 1;
        }
        assert(cv.take(self.sets.len() as int) =~= cv);
        r
    }

    /// Total number of distinct state variables covered.
    pub fn universe_size(&self) -> (r: usize)
        ensures
            r == union_of(self@).len(),
    {
        let u = self.universe();
        proof {
            assert(u@.no_duplicates()) by {
                assert forall|a: int, b: int|
                    0 <= a < u@.len() && 0 <= b < u@.len() && a != b implies u@[a] != u@[b] by {
                    if a < b {
                    } else {
                    }
                }
            }
            u@.unique_seq_to_set();
        }
        u.len()
    }

    /// Pairwise intersection of sets `i` and `j` (a merge walk over both).
    pub fn intersection(&self, i: usize, j: usize) -> (r: Vec<usize>)
        requires
            i < self@.len(),
            j < self@.len(),
        ensures
            r@ == common_merge(self@[i as int], self@[j as int]),
    {
        merge_common(&self.sets[i], &self.sets[j])
    }

    /// Triple intersection of sets `i`, `j` and `k`.
    pub fn triple_intersection(&self, i: usize, j: usize, k: usize) -> (r: Vec<usize>)
        requires
            i < self@.len(),
            j < self@.len(),
            k < self@.len(),
        ensures
            r@ == triple_merge(self@, i, j, k),
    {
        let ab = self.intersection(i, j);
        merge_common(&ab, &self.sets[k])
    }


    /// Pairwise intersections `(i, j, sets[i] ∩ sets[j])` for `i < j` in
    /// lexicographic order; empty ones are kept only when `keep_empty`.
    fn pair_list(&self, keep_empty: bool) -> (r: Vec<(usize, usize, Vec<usize>)>)
        ensures
            is_pair_list(self@, r@, keep_empty),
            keep_empty ==> r@.len() == pairs_upto(self@.len() as int, self@.len() as int),
    {
        let n = self.sets.len();
        let mut out: Vec<(usize, usize, Vec<usize>)> = Vec::new();
        let mut i: usize = 0;
        while i < n
            invariant
                n == self@.len(),
                i <= n,
                keep_empty ==> out@.len() == pairs_upto(n as int, i as int),
                forall|t: int|
                    0 <= t < out@.len() ==> {
                        &&& (#[trigger] out@[t]).0 < out@[t].1 < n
                        &&& out@[t].0 < i
                        &&& out@[t].2@ == common_merge(self@[out@[t].0 as int], self@[out@[t].1 as int])
                        &&& listed(keep_empty, out@[t].2@)
                    },
                forall|s: int, t: int|
                    0 <= s < t < out@.len() ==> pair_before(
                        (out@[s].0, out@[s].1),
                        (out@[t].0, out@[t].1),
                    ),
                forall|a: usize, b: usize|
                    a < b < n && a < i && listed(keep_empty, common_merge(self@[a as int], self@[b as int]))
                        ==> #[trigger] lists_pair(out@, a, b),
            decreases n - i,
        {
            let mut j: usize = i + 1;
            while j < n
                invariant
                    n == self@.len(),
                    i < n,
                    i + 1 <= j <= n,
                    keep_empty ==> out@.len() == pairs_upto(n as int, i as int) + (j - i - 1),
                    forall|t: int|
                        0 <= t < out@.len() ==> {
                            &&& (#[trigger] out@[t]).0 < out@[t].1 < n
                            &&& pair_before((out@[t].0, out@[t].1), (i, j))
                            &&& out@[t].2@ == common_merge(
                                self@[out@[t].0 as int],
                                self@[out@[t].1 as int],
                            )
                            &&& listed(keep_empty, out@[t].2@)
                        },
                    forall|s: int, t: int|
                        0 <= s < t < out@.len() ==> pair_before(
                            (out@[s].0, out@[s].1),
                            (out@[t].0, out@[t].1),
                        ),
                    forall|a: usize, b: usize|
                        a < b < n && pair_before((a, b), (i, j)) && listed(keep_empty, 
                            common_merge(self@[a as int], self@[b as int]),
                        ) ==> #[trigger] lists_pair(out@, a, b),
                decreases n - j,
            {
                let inter = self.intersection(i, j);
                let ghost old_out = out@;
                if keep_empty || inter.len() > 0 {
                    out.push((i, j, inter));
                }
                proof {
                    assert forall|a: usize, b: usize|
                        a < b < n && pair_before((a, b), (i, (j + 1) as usize)) && listed(keep_empty, 
                            common_merge(self@[a as int], self@[b as int]),
                        ) implies #[trigger] lists_pair(out@, a, b) by {
                        if a == i && b == j {
                            let t = out@.len() - 1;
                            assert(out@[t].0 == i && out@[t].1 == j);
                        } else {
                            assert(lists_pair(old_out, a, b));
                            let t = choose|t: int|
                                0 <= t < old_out.len() && old_out[t].0 == a && old_out[t].1 == b;
                            assert(out@[t] == old_out[t]);
                        }
                    }
                }
                j += 1;
            }
            proof {
                assert forall|a: usize, b: usize|
                    a < b < n && a < i + 1 && listed(keep_empty, common_merge(self@[a as int], self@[b as int]))
                        implies #[trigger] lists_pair(out@, a, b) by {
                    assert(pair_before((a, b), (i, j)));
                }
            }
            i += 1;
        }
        out
    }

    /// All pairwise intersections `(i, j, sets[i] ∩ sets[j])` with `i < j`,
    /// in lexicographic order of `(i, j)`.
    pub fn pairwise_intersections(&self) -> (r: Vec<(usize, usize, Vec<usize>)>)
        ensures
            is_pair_list(self@, r@, true),
            r@.len() == self@.len() * (self@.len() - 1) / 2,
    {
        let r = self.pair_list(true);
        proof {
            lemma_pairs_upto(self@.len() as int, self@.len() as int);
        }
        assert(is_pair_list(self@, r@, true));
        r
    }

    /// The non-empty pairwise intersections, in lexicographic order of `(i, j)`.
    pub fn nonempty_intersections(&self) -> (r: Vec<(usize, usize, Vec<usize>)>)
        ensures
            is_pair_list(self@, r@, false),
    {
        let r = self.pair_list(false);
        assert(is_pair_list(self@, r@, false));
        r
    }

    /// All non-empty triple intersections `(i, j, k, sets[i] ∩ sets[j] ∩ sets[k])`
    /// with `i < j < k`, in lexicographic order of `(i, j, k)`.
    pub fn triple_intersections(&self) -> (r: Vec<(usize, usize, usize, Vec<usize>)>)
        ensures
            is_triple_list(self@, r@),
    {
        let n = self.sets.len();
        let mut out: Vec<(usize, usize, usize, Vec<usize>)> = Vec::new();
        let mut i: usize = 0;
        while i < n
            invariant
                n == self@.len(),
                i <= n,
                forall|t: int|
                    0 <= t < out@.len() ==> {
                        &&& (#[trigger] out@[t]).0 < out@[t].1 < out@[t].2 < n
                        &&& out@[t].0 < i
                        &&& out@[t].3@ == triple_merge(self@, out@[t].0, out@[t].1, out@[t].2)
                        &&& out@[t].3@.len() > 0
                    },
                forall|s: int, t: int|
                    0 <= s < t < out@.len() ==> triple_before(
                        (out@[s].0, out@[s].1, out@[s].2),
                        (out@[t].0, out@[t].1, out@[t].2),
                    ),
                forall|a: usize, b: usize, c: usize|
                    a < b < c < n && a < i && triple_merge(self@, a, b, c).len() > 0
                        ==> #[trigger] lists_triple(out@, a, b, c),
            decreases n - i,
        {
            let mut j: usize = i + 1;
            while j < n
                invariant
                    n == self@.len(),
                    i < n,
                    i + 1 <= j <= n,
                    forall|t: int|
                        0 <= t < out@.len() ==> {
                            &&& (#[trigger] out@[t]).0 < out@[t].1 < out@[t].2 < n
                            &&& triple_before((out@[t].0, out@[t].1, out@[t].2), (i, j, 0))
                            &&& out@[t].3@ == triple_merge(self@, out@[t].0, out@[t].1, out@[t].2)
                            &&& out@[t].3@.len() > 0
                        },
                    forall|s: int, t: int|
                        0 <= s < t < out@.len() ==> triple_before(
                            (out@[s].0, out@[s].1, out@[s].2),
                            (out@[t].0, out@[t].1, out@[t].2),
                        ),
                    forall|a: usize, b: usize, c: usize|
                        a < b < c < n && triple_before((a, b, c), (i, j, 0)) && triple_merge(
                            self@,
                            a,
                            b,
                            c,
                        ).len() > 0 ==> #[trigger] lists_triple(out@, a, b, c),
                decreases n - j,
            {
                let mut k: usize = j + 1;
                while k < n
                    invariant
                        n == self@.len(),
                        i < j < n,
                        j + 1 <= k <= n,
                        forall|t: int|
                            0 <= t < out@.len() ==> {
                                &&& (#[trigger] out@[t]).0 < out@[t].1 < out@[t].2 < n
                                &&& triple_before((out@[t].0, out@[t].1, out@[t].2), (i, j, k))
                                &&& out@[t].3@ == triple_merge(
                                    self@,
                                    out@[t].0,
                                    out@[t].1,
                                    out@[t].2,
                                )
                                &&& out@[t].3@.len() > 0
                            },
                        forall|s: int, t: int|
                            0 <= s < t < out@.len() ==> triple_before(
                                (out@[s].0, out@[s].1, out@[s].2),
                                (out@[t].0, out@[t].1, out@[t].2),
                            ),
                        forall|a: usize, b: usize, c: usize|
                            a < b < c < n && triple_before((a, b, c), (i, j, k)) && triple_merge(
                                self@,
                                a,
                                b,
                                c,
                            ).len() > 0 ==> #[trigger] lists_triple(out@, a, b, c),
                    decreases n - k,
                {
                    let inter = self.triple_intersection(i, j, k);
                    let ghost old_out = out@;
                    if inter.len() > 0 {
                        out.push((i, j, k, inter));
                    }
                    proof {
                        assert forall|a: usize, b: usize, c: usize|
                            a < b < c < n && triple_before((a, b, c), (i, j, (k + 1) as usize))
                                && triple_merge(self@, a, b, c).len() > 0 implies #[trigger] lists_triple(
                            out@,
                            a,
                            b,
                            c,
                        ) by {
                            if a == i && b == j && c == k {
                                let t = out@.len() - 1;
                                assert(out@[t].0 == i && out@[t].1 == j && out@[t].2 == k);
                            } else {
                                assert(lists_triple(old_out, a, b, c));
                                let t = choose|t: int|
                                    0 <= t < old_out.len() && old_out[t].0 == a && old_out[t].1 == b
                                        && old_out[t].2 == c;
                                assert(out@[t] == old_out[t]);
                            }
                        }
                    }
                    k += 1;
                }
                proof {
                    assert forall|a: usize, b: usize, c: usize|
                        a < b < c < n && triple_before((a, b, c), (i, (j + 1) as usize, 0))
                            && triple_merge(self@, a, b, c).len() > 0 implies #[trigger] lists_triple(
                        out@,
                        a,
                        b,
                        c,
                    ) by {
                        assert(triple_before((a, b, c), (i, j, k)));
                    }
                }
                j += 1;
            }
            proof {
                assert forall|a: usize, b: usize, c: usize|
                    a < b < c < n && a < i + 1 && triple_merge(self@, a, b, c).len() > 0
                        implies #[trigger] lists_triple(out@, a, b, c) by {
                    assert(triple_before((a, b, c), (i, j, 0)));
                }
            }
            i += 1;
        }
        out
    }

    /// Whether the covered indices are exactly `0..n` for some `n` (no gaps).
    pub fn is_valid_cover(&self) -> (r: bool)
        ensures
            r == downward_closed(union_of(self@)),
    {
        let universe = self.universe();
        if universe.len() == 0 {
            proof {
                assert forall|x: usize, y: usize|
                    #[trigger] union_of(self@).contains(x) && y <= x implies #[trigger] union_of(
                        self@,
                    ).contains(y) by {
                    assert(universe@.to_set().contains(x));
                }
            }
            return true;
        }
        let max = universe[universe.len() - 1];
        let r = universe.len() - 1 == max;
        proof {
            let u = universe@;
            if r {
                assert forall|k: int| 0 <= k < u.len() implies u[k] == k by {
                    lemma_sorted_at_least_index(u, k);
                    lemma_sorted_below_last(u, k);
                }
                assert forall|x: usize, y: usize|
                    #[trigger] union_of(self@).contains(x) && y <= x implies #[trigger] union_of(
                        self@,
                    ).contains(y) by {
                    assert(u.to_set().contains(x));
                    let w = choose|w: int| 0 <= w < u.len() && u[w] == x;
                    assert(u[y as int] == y);
                    assert(u.to_set().contains(y));
                }
            } else {
                if downward_closed(union_of(self@)) {
                    lemma_downward_closed_identity(u, u.len() - 1);
                }
            }
        }
        r
    }
}

/// A restriction map from one open set to a subset of it (an intersection).
///
/// `mapping[k]` is the position, within the source set, of the `k`-th index
/// of `to_intersection`.
#[derive(Debug, Clone, PartialEq)]
pub struct RestrictionMap {
    pub from_set: usize,
    pub to_intersection: Vec<usize>,
    pub mapping: Vec<usize>,
}

impl RestrictionMap {
    /// Build the restriction map from set `from_idx` to `intersection`:
    /// each index of the intersection is looked up in the source set.
    pub fn from_cover(cover: &OpenCover, from_idx: usize, intersection: &[usize]) -> (r: Self)
        requires
            from_idx < cover@.len(),
            forall|k: int|
                0 <= k < intersection@.len() ==> cover@[from_idx as int].contains(
                    #[trigger] intersection@[k],
                ),
        ensures
            r.from_set == from_idx,
            r.to_intersection@ == intersection@,
            r.mapping@.len() == intersection@.len(),
            forall|k: int|
                0 <= k < intersection@.len() ==> #[trigger] r.mapping@[k] == first_index(
                    cover@[from_idx as int],
                    intersection@[k],
                ),
            forall|k: int|
                0 <= k < intersection@.len() ==> #[trigger] r.mapping@[k] < cover@[from_idx as int].len()
                    && cover@[from_idx as int][r.mapping@[k] as int] == intersection@[k],
    {
        let source = &cover.sets[from_idx];
        let mut mapping: Vec<usize> = Vec::new();
        let mut k: usize = 0;
        while k < intersection.len()
            invariant
                k <= intersection@.len(),
                source@ == cover@[from_idx as int],
                forall|q: int|
                    0 <= q < intersection@.len() ==> source@.contains(#[trigger] intersection@[q]),
                mapping@.len() == k,
                forall|q: int|
                    0 <= q < k ==> #[trigger] mapping@[q] == first_index(source@, intersection@[q])
                        && mapping@[q] < source@.len() && source@[mapping@[q] as int]
                        == intersection@[q],
            decreases intersection@.len() - k,
        {
            let x = intersection[k];
            assert(source@.contains(intersection@[k as int]));
            match position_of(source.as_slice(), x) {
                Some(m) => {
                    mapping.push(m);
                },
                None => {
                    assert(false);
                },
            }
            k += 1;
        }
        RestrictionMap {
            from_set: from_idx,
            to_intersection: crate::sorted::copy_indices(intersection),
            mapping,
        }
    }

    /// Apply this restriction map to a source vector: the values at the
    /// mapped positions, in intersection order.
    pub fn apply<T: Copy>(&self, data: &[T]) -> (r: Vec<T>)
        requires
            forall|k: int| 0 <= k < self.mapping@.len() ==> #[trigger] self.mapping@[k] < data@.len(),
        ensures
            r@ == self.mapping@.map_values(|i: usize| data@[i as int]),
    {
        let mut r: Vec<T> = Vec::new();
        let mut k: usize = 0;
        while k < self.mapping.len()
            invariant
                k <= self.mapping@.len(),
                forall|q: int| 0 <= q < self.mapping@.len() ==> #[trigger] self.mapping@[q] < data@.len(),
                r@ == self.mapping@.take(k as int).map_values(|i: usize| data@[i as int]),
            decreases self.mapping@.len() - k,
        {
            r.push(data[self.mapping[k]]);
            k += 1;
            assert(r@ =~= self.mapping@.take(k as int).map_values(|i: usize| data@[i as int]));
        }
        assert(self.mapping@.take(self.mapping@.len() as int) =~= self.mapping@);
        r
    }
}

} // verus!
