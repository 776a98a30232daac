//! Refinement of covers, and persistence of cohomological features across a
//! sequence of resolutions.

use vstd::prelude::*;
use crate::cover::{OpenCover, sets_view, normalized_sets, union_of};
use crate::sorted::{copy_indices, normalized, lemma_normalized};

verus! {

/// Chunk length for a set of `len` elements at `resolution`:
/// `ceil(len / resolution)`, written so that it cannot overflow; 1 for a
/// non-empty set of at most `resolution` elements.
pub open spec fn piece_len(len: nat, resolution: nat) -> nat {
    if len == 0 {
        0
    } else {
        ((len - 1) as nat / resolution + 1) as nat
    }
}

/// Consecutive chunks of `s` of `size` elements each, the last one possibly
/// shorter (as slice chunking yields them).
pub open spec fn chunks(s: Seq<usize>, size: nat) -> Seq<Seq<usize>>
    decreases s.len(),
{
    if s.len() == 0 || size == 0 {
        Seq::empty()
    } else if s.len() <= size {
        seq![s]
    } else {
        seq![s.take(size as int)] + chunks(s.skip(size as int), size)
    }
}

/// How many pieces a set of `len` elements is split into at `resolution`:
/// `ceil(len / piece_len)` chunks, or the one empty set.
pub open spec fn piece_count(len: nat, resolution: nat) -> nat {
    if len == 0 {
        1
    } else {
        ((len - 1) as nat / piece_len(len, resolution) + 1) as nat
    }
}

/// The pieces a set is split into at `resolution > 1`: consecutive chunks
/// of `ceil(len / resolution)` elements (single elements when it has at most
/// `resolution`); an empty set stays as it is.
pub open spec fn refine_pieces(s: Seq<usize>, resolution: nat) -> Seq<Seq<usize>> {
    if s.len() == 0 {
        seq![s]
    } else {
        chunks(s, piece_len(s.len(), resolution))
    }
}

/// Every set of the cover split into its pieces at `resolution`, in order.
pub open spec fn refined_pieces(cover: Seq<Seq<usize>>, resolution: nat) -> Seq<Seq<usize>>
    decreases cover.len(),
{
    if cover.len() == 0 {
        Seq::empty()
    } else {
        refined_pieces(cover.drop_last(), resolution) + refine_pieces(cover.last(), resolution)
    }
}

/// The cover that `refine_cover` produces at `resolution`: unchanged at
/// resolution 0 or 1, otherwise every set split into its pieces, then
/// normalized as `OpenCover::new` does.
pub open spec fn refined(cover: Seq<Seq<usize>>, resolution: nat) -> Seq<Seq<usize>> {
    if resolution <= 1 {
        cover
    } else {
        normalized_sets(refined_pieces(cover, resolution))
    }
}

/// A fresh vector holding `v[start..end]`.
fn copy_range(v: &Vec<usize>, start: usize, end: usize) -> (r: Vec<usize>)
    requires
        start <= end <= v@.len(),
    ensures
        r@ == v@.subrange(start as int, end as int),
{
    let mut r: Vec<usize> = Vec::new();
    let mut i: usize = start;
    while i < end
        invariant
            start <= i <= end,
            end <= v@.len(),
            r@ == v@.subrange(start as int, i as int),
        decreases end - i,
    {
        r.push(v[i]);
        i += 1;
        assert(r@ =~= v@.subrange(start as int, i as int));
    }
    r
}

/// The chunks of `set` of `size` elements.
fn chunks_of(set: &Vec<usize>, size: usize) -> (r: Vec<Vec<usize>>)
    requires
        size > 0,
    ensures
        sets_view(r@) == chunks(set@, size as nat),
{
    let mut out: Vec<Vec<usize>> = Vec::new();
    let mut start: usize = 0;
    assert(set@.skip(0) =~= set@);
    assert(sets_view(out@) + chunks(set@, size as nat) =~= chunks(set@, size as nat));
    while start < set.len()
        invariant
            start <= set@.len(),
            size > 0,
            sets_view(out@) + chunks(set@.skip(start as int), size as nat) == chunks(set@, size as nat),
        decreases set@.len() - start,
    {
        let ghost rest = set@.skip(start as int);
        let ghost old_view = sets_view(out@);
        let end = if set.len() - start <= size {
            set.len()
        } else {
            start + size
        };
        let piece = copy_range(set, start, end);
        out.push(piece);
        proof {
            if set@.len() - start <= size {
                assert(rest =~= set@.subrange(start as int, end as int));
                assert(set@.skip(end as int) =~= Seq::<usize>::empty());
                assert(chunks(set@.skip(end as int), size as nat) =~= Seq::<Seq<usize>>::empty());
            } else {
                assert(rest.take(size as int) =~= set@.subrange(start as int, end as int));
                assert(rest.skip(size as int) =~= set@.skip(end as int));
            }
            assert(sets_view(out@) =~= old_view.push(set@.subrange(start as int, end as int)));
            assert(sets_view(out@) + chunks(set@.skip(end as int), size as nat) =~= old_view + chunks(rest, size as nat));
        }
        start = end;
    }
    assert(set@.skip(start as int) =~= Seq::<usize>::empty());
    assert(sets_view(out@) =~= sets_view(out@) + Seq::<Seq<usize>>::empty());
    out
}

/// A fresh cover with the same sets.
fn copy_cover(cover: &OpenCover) -> (r: OpenCover)
    ensures
        r@ == cover@,
{
    let mut sets: Vec<Vec<usize>> = Vec::new();
    let mut i: usize = 0;
    while i < cover.sets.len()
        invariant
            i <= cover@.len(),
            sets_view(sets@) == cover@.take(i as int),
        decreases cover@.len() - i,
    {
        let ghost old_sets = sets@;
        let c = copy_indices(cover.sets[i].as_slice());
        assert(c@ == cover@[i as int]);
        sets.push(c);
        assert(sets@ == old_sets.push(c));
        assert(sets_view(sets@) =~= sets_view(old_sets).push(c@));
        i += 1;
        assert(sets_view(sets@) =~= cover@.take(i as int));
    }
    assert(cover@.take(cover@.len() as int) =~= cover@);
    OpenCover { sets }
}

/// Refine a cover by cutting each set into consecutive chunks of
/// `ceil(len / resolution)` elements, the last one possibly shorter (so a
/// set of at most `resolution` elements falls into single elements; an empty
/// set stays as it is). At resolution 0 or 1 the cover is unchanged; a
/// higher resolution never gives fewer sets.
pub fn refine_cover(cover: &OpenCover, resolution: usize) -> (r: OpenCover)
    ensures
        r@ == refined(cover@, resolution as nat),
{
    if resolution <= 1 {
        return copy_cover(cover);
    }
    let mut new_sets: Vec<Vec<usize>> = Vec::new();
    let mut i: usize = 0;
    assert(cover@.take(0) =~= Seq::<Seq<usize>>::empty());
    while i < cover.sets.len()
        invariant
            i <= cover@.len(),
            resolution > 1,
            sets_view(new_sets@) == refined_pieces(cover@.take(i as int), resolution as nat),
        decreases cover@.len() - i,
    {
        let set = &cover.sets[i];
        let ghost old_view = sets_view(new_sets@);
        proof {
            let next = cover@.take(i + 1);
            assert(next.drop_last() =~= cover@.take(i as int));
            assert(next.last() == set@);
        }
        if set.len() == 0 {
            new_sets.push(copy_indices(set.as_slice()));
            assert(sets_view(new_sets@) =~= old_view + seq![set@]);
        } else {
            let size = (set.len() - 1) / resolution + 1;
            let mut pieces = chunks_of(set, size);
            let ghost pv = sets_view(pieces@);
            new_sets.append(&mut pieces);
            assert(sets_view(new_sets@) =~= old_view + pv);
        }
        i += 1;
    }
    assert(cover@.take(cover@.len() as int) =~= cover@);
    OpenCover::new(new_sets)
}

/// The refined covers at resolutions `1, 2, .., max_resolution`.
pub fn refinement_sequence(cover: &OpenCover, max_resolution: usize) -> (r: Vec<OpenCover>)
    ensures
        r@.len() == max_resolution,
        forall|t: int| 0 <= t < max_resolution ==> #[trigger] r@[t]@ == refined(cover@, (t + 1) as nat),
{
    let mut out: Vec<OpenCover> = Vec::new();
    let mut t: usize = 0;
    while t < max_resolution
        invariant
            t <= max_resolution,
            out@.len() == t,
            forall|q: int| 0 <= q < t ==> #[trigger] out@[q]@ == refined(cover@, (q + 1) as nat),
        decreases max_resolution - t,
    {
        out.push(refine_cover(cover, t + 1));
        t += 1;
    }
    out
}


/// A point of a persistence diagram: a feature of degree `degree` born at
/// resolution `birth` and dying at `death` (the caller's infinity when it
/// is still alive at the last resolution).
#[derive(Debug, Clone, Copy, PartialEq)]
pub struct PersistencePoint<R> {
    pub birth: R,
    pub death: R,
    pub degree: usize,
}

/// A persistence diagram: the lifetimes of cohomological features.
#[derive(Debug, Clone, PartialEq)]
pub struct PersistenceDiagram<R> {
    pub points: Vec<PersistencePoint<R>>,
}

/// The dimensions of H⁰ and H¹ at one resolution.
#[derive(Debug, Clone, Copy, PartialEq)]
pub struct CohomologySnapshot<R> {
    pub resolution: R,
    pub h0_dimension: usize,
    pub h1_dimension: usize,
}

/// What tracking has built after some stages: the birth resolutions of the
/// living features of degree 0 and of degree 1 (a stack, newest last), the
/// points of features that have died, and the last dimensions seen.
pub struct TrackState<R> {
    pub births0: Seq<R>,
    pub births1: Seq<R>,
    pub points: Seq<PersistencePoint<R>>,
    pub last: Option<(usize, usize)>,
}

/// `n` features die at `resolution`: the `n` newest births are popped, each
/// giving a point, newest first. Pops stop early if the stack runs out.
pub open spec fn kill<R>(births: Seq<R>, n: nat, resolution: R, degree: usize) -> (Seq<R>, Seq<PersistencePoint<R>>)
    decreases n,
{
    if n == 0 || births.len() == 0 {
        (births, Seq::empty())
    } else {
        let rest = kill(births.drop_last(), (n - 1) as nat, resolution, degree);
        (rest.0, seq![PersistencePoint { birth: births.last(), death: resolution, degree }] + rest.1)
    }
}

/// One degree's update at a new stage whose dimension is `dim`: at the
/// first stage all features are born; later, a rise gives births and a
/// fall gives deaths.
pub open spec fn track<R>(births: Seq<R>, prev: Option<usize>, dim: usize, resolution: R, degree: usize) -> (Seq<R>, Seq<PersistencePoint<R>>) {
    match prev {
        Option::None => (births + Seq::new(dim as nat, |k: int| resolution), Seq::empty()),
        Option::Some(p) => if dim > p {
            (births + Seq::new((dim - p) as nat, |k: int| resolution), Seq::empty())
        } else if dim < p {
            kill(births, (p - dim) as nat, resolution, degree)
        } else {
            (births, Seq::empty())
        },
    }
}

/// The tracking state after the given `(resolution, h0, h1)` stages.
pub open spec fn track_stages<R>(stages: Seq<(R, usize, usize)>) -> TrackState<R>
    decreases stages.len(),
{
    if stages.len() == 0 {
        TrackState { births0: Seq::empty(), births1: Seq::empty(), points: Seq::empty(), last: Option::None }
    } else {
        let s = track_stages(stages.drop_last());
        let (res, h0, h1) = stages.last();
        let t0 = track(s.births0, match s.last { Option::Some(l) => Option::Some(l.0), Option::None => Option::None }, h0, res, 0);
        let t1 = track(s.births1, match s.last { Option::Some(l) => Option::Some(l.1), Option::None => Option::None }, h1, res, 1);
        TrackState { births0: t0.0, births1: t1.0, points: s.points + t0.1 + t1.1, last: Option::Some((h0, h1)) }
    }
}

/// The persistence diagram's points: those of features that died, then the
/// features alive at the end (degree 0 first, oldest first) dying at `infinity`.
pub open spec fn diagram_points<R>(stages: Seq<(R, usize, usize)>, infinity: R) -> Seq<PersistencePoint<R>> {
    let s = track_stages(stages);
    s.points + s.births0.map_values(|b: R| PersistencePoint { birth: b, death: infinity, degree: 0 })
        + s.births1.map_values(|b: R| PersistencePoint { birth: b, death: infinity, degree: 1 })
}

/// Push `n` births at `resolution`.
fn push_births<R: Copy>(births: &mut Vec<R>, n: usize, resolution: R)
    ensures
        final(births)@ == old(births)@ + Seq::new(n as nat, |k: int| resolution),
{
    let ghost start = births@;
    let mut k: usize = 0;
    while k < n
        invariant
            k <= n,
            births@ == start + Seq::new(k as nat, |q: int| resolution),
        decreases n - k,
    {
        births.push(resolution);
        k += 1;
        assert(births@ =~= start + Seq::new(k as nat, |q: int| resolution));
    }
}

/// Pop up to `n` births, recording a point dying at `resolution` for each.
fn pop_births<R: Copy>(births: &mut Vec<R>, points: &mut Vec<PersistencePoint<R>>, n: usize, resolution: R, degree: usize)
    ensures
        final(births)@ == kill(old(births)@, n as nat, resolution, degree).0,
        final(points)@ == old(points)@ + kill(old(births)@, n as nat, resolution, degree).1,
{
    let ghost b0 = births@;
    let ghost p0 = points@;
    let mut k: usize = 0;
    assert(p0 + kill(b0, n as nat, resolution, degree).1 =~= points@ + kill(births@, (n - k) as nat, resolution, degree).1);
    while k < n
        invariant
            k <= n,
            kill(b0, n as nat, resolution, degree).0 == kill(births@, (n - k) as nat, resolution, degree).0,
            p0 + kill(b0, n as nat, resolution, degree).1 == points@ + kill(births@, (n - k) as nat, resolution, degree).1,
        decreases n - k,
    {
        let ghost cur = births@;
        let ghost pts = points@;
        match births.pop() {
            Some(birth) => {
                points.push(PersistencePoint { birth, death: resolution, degree });
                assert(births@ == cur.drop_last());
                assert(pts + kill(cur, (n - k) as nat, resolution, degree).1 =~= points@ + kill(births@, (n - k - 1) as nat, resolution, degree).1);
            },
            None => {
                assert(kill(cur, (n - k - 1) as nat, resolution, degree) == kill(cur, (n - k) as nat, resolution, degree));
            },
        }
        k += 1;
    }
}

/// One degree's update at a new stage, as `track` describes it.
fn track_degree<R: Copy>(births: &mut Vec<R>, points: &mut Vec<PersistencePoint<R>>, prev: Option<usize>, dim: usize, resolution: R, degree: usize)
    ensures
        final(births)@ == track(old(births)@, prev, dim, resolution, degree).0,
        final(points)@ == old(points)@ + track(old(births)@, prev, dim, resolution, degree).1,
{
    match prev {
        Some(p) => {
            if dim > p {
                push_births(births, dim - p, resolution);
                assert(points@ =~= points@ + Seq::<PersistencePoint<R>>::empty());
            } else if dim < p {
                pop_births(births, points, p - dim, resolution, degree);
            } else {
                assert(points@ =~= points@ + Seq::<PersistencePoint<R>>::empty());
            }
        },
        None => {
            push_births(births, dim, resolution);
            assert(points@ =~= points@ + Seq::<PersistencePoint<R>>::empty());
        },
    }
}

/// Snapshots and persistence diagram for a sequence of stages, each given
/// as `(resolution, dim H⁰, dim H¹)` in order of increasing resolution.
/// Rises in a dimension are births at that resolution; falls kill the
/// newest living features; features alive at the end die at `infinity`.
pub fn persistence_from_dimensions<R: Copy>(stages: &[(R, usize, usize)], infinity: R) -> (r: (Vec<CohomologySnapshot<R>>, PersistenceDiagram<R>))
    ensures
        r.0@.len() == stages@.len(),
        forall|t: int| 0 <= t < stages@.len() ==> #[trigger] r.0@[t] == (CohomologySnapshot {
            resolution: stages@[t].0,
            h0_dimension: stages@[t].1,
            h1_dimension: stages@[t].2,
        }),
        r.1.points@ == diagram_points(stages@, infinity),
{
    let mut snapshots: Vec<CohomologySnapshot<R>> = Vec::new();
    let mut births0: Vec<R> = Vec::new();
    let mut births1: Vec<R> = Vec::new();
    let mut points: Vec<PersistencePoint<R>> = Vec::new();
    let mut prev: Option<(usize, usize)> = None;
    let mut t: usize = 0;
    assert(stages@.take(0) =~= Seq::<(R, usize, usize)>::empty());
    while t < stages.len()
        invariant
            t <= stages@.len(),
            snapshots@.len() == t,
            forall|q: int| 0 <= q < t ==> #[trigger] snapshots@[q] == (CohomologySnapshot {
                resolution: stages@[q].0,
                h0_dimension: stages@[q].1,
                h1_dimension: stages@[q].2,
            }),
            track_stages(stages@.take(t as int)) == (TrackState { births0: births0@, births1: births1@, points: points@, last: prev }),
        decreases stages@.len() - t,
    {
        let (resolution, h0, h1) = stages[t];
        snapshots.push(CohomologySnapshot { resolution, h0_dimension: h0, h1_dimension: h1 });
        let ghost st = track_stages(stages@.take(t as int));
        let ghost mid_points = points@;
        let p0 = match prev { Some(l) => Some(l.0), None => None };
        let p1 = match prev { Some(l) => Some(l.1), None => None };
        track_degree(&mut births0, &mut points, p0, h0, resolution, 0);
        let ghost after0 = points@;
        track_degree(&mut births1, &mut points, p1, h1, resolution, 1);
        prev = Some((h0, h1));
        proof {
            assert(stages@.take(t + 1).drop_last() =~= stages@.take(t as int));
            assert(stages@.take(t + 1).last() == stages@[t as int]);
            assert(points@ =~= st.points + track(st.births0, p0, h0, resolution, 0).1 + track(st.births1, p1, h1, resolution, 1).1);
        }
        t += 1;
    }
    assert(stages@.take(stages@.len() as int) =~= stages@);
    let ghost before = points@;
    let mut k: usize = 0;
    while k < births0.len()
        invariant
            k <= births0@.len(),
            points@ == before + births0@.take(k as int).map_values(|b: R| PersistencePoint { birth: b, death: infinity, degree: 0 }),
        decreases births0@.len() - k,
    {
        points.push(PersistencePoint { birth: births0[k], death: infinity, degree: 0 });
        k += 1;
        assert(points@ =~= before + births0@.take(k as int).map_values(|b: R| PersistencePoint { birth: b, death: infinity, degree: 0 }));
    }
    assert(births0@.take(births0@.len() as int) =~= births0@);
    let ghost before1 = points@;
    let mut k: usize = 0;
    while k < births1.len()
        invariant
            k <= births1@.len(),
            points@ == before1 + births1@.take(k as int).map_values(|b: R| PersistencePoint { birth: b, death: infinity, degree: 1 }),
        decreases births1@.len() - k,
    {
        points.push(PersistencePoint { birth: births1[k], death: infinity, degree: 1 });
        k += 1;
        assert(points@ =~= before1 + births1@.take(k as int).map_values(|b: R| PersistencePoint { birth: b, death: infinity, degree: 1 }));
    }
    assert(births1@.take(births1@.len() as int) =~= births1@);
    (snapshots, PersistenceDiagram { points })
}

/// Killing `n` features from a stack of at least `n` births pops exactly
/// `n` of them and records `n` points.
pub proof fn lemma_kill_len<R>(births: Seq<R>, n: nat, resolution: R, degree: usize)
    requires
        n <= births.len(),
    ensures
        kill(births, n, resolution, degree).0.len() == births.len() - n,
        kill(births, n, resolution, degree).1.len() == n,
    decreases n,
{
    if n > 0 {
        lemma_kill_len(births.drop_last(), (n - 1) as nat, resolution, degree);
    }
}

/// Law: when `n` features die, the newest `n` living features are the ones
/// that die: the living stack loses exactly its top `n` births, and the
/// points recorded carry those births, newest first, each dying at
/// `resolution` with the given degree. So the births of the points and the
/// births still alive are exactly the births alive before.
pub proof fn law_dying_features_are_the_newest<R>(births: Seq<R>, n: nat, resolution: R, degree: usize)
    requires
        n <= births.len(),
    ensures
        kill(births, n, resolution, degree).0 == births.take(births.len() - n),
        kill(births, n, resolution, degree).1.len() == n,
        forall|t: int| 0 <= t < n ==> #[trigger] kill(births, n, resolution, degree).1[t]
            == (PersistencePoint { birth: births[births.len() - 1 - t], death: resolution, degree }),
    decreases n,
{
    if n > 0 {
        let init = births.drop_last();
        law_dying_features_are_the_newest(init, (n - 1) as nat, resolution, degree);
        let rest = kill(init, (n - 1) as nat, resolution, degree);
        let k = kill(births, n, resolution, degree);
        assert(k.1 == seq![PersistencePoint { birth: births.last(), death: resolution, degree }] + rest.1);
        assert(init.take(init.len() - (n - 1)) =~= births.take(births.len() - n));
        assert forall|t: int| 0 <= t < n implies #[trigger] k.1[t]
            == (PersistencePoint { birth: births[births.len() - 1 - t], death: resolution, degree }) by {
            if t > 0 {
                assert(k.1[t] == rest.1[t - 1]);
                assert(init[init.len() - 1 - (t - 1)] == births[births.len() - 1 - t]);
            }
        }
    } else {
        assert(births.take(births.len() as int) =~= births);
    }
}

/// The living features of degree `d` (0 or 1) in a tracking state.
pub open spec fn living<R>(st: TrackState<R>, d: usize) -> Seq<R> {
    if d == 0 {
        st.births0
    } else {
        st.births1
    }
}

/// Law: how one more stage changes the living features of each degree: at
/// the first stage all features of its dimension are born at its
/// resolution; after that, a rise of the dimension by `k` adds `k` features
/// born at the new stage's resolution on top, a fall by `k` removes the `k`
/// newest, and an unchanged dimension changes nothing.
pub proof fn law_stage_updates_living_features<R>(stages: Seq<(R, usize, usize)>, d: usize)
    requires
        stages.len() > 0,
        d <= 1,
    ensures
        ({
            let before = living(track_stages(stages.drop_last()), d);
            let after = living(track_stages(stages), d);
            let res = stages.last().0;
            let now = stage_dim(stages.last(), d);
            if stages.len() == 1 {
                after == Seq::new(now as nat, |k: int| res)
            } else {
                let prev = stage_dim(stages[stages.len() - 2], d);
                if now >= prev {
                    after == before + Seq::new((now - prev) as nat, |k: int| res)
                } else {
                    after == before.take(before.len() - (prev - now))
                }
            }
        }),
{
    let init = stages.drop_last();
    law_living_features_match_last_dimensions(init);
    let st = track_stages(init);
    let res = stages.last().0;
    if stages.len() == 1 {
        assert(st.births0 =~= Seq::<R>::empty());
        assert(st.births1 =~= Seq::<R>::empty());
        assert(Seq::<R>::empty() + Seq::new(stage_dim(stages.last(), d) as nat, |k: int| res) =~= Seq::new(stage_dim(stages.last(), d) as nat, |k: int| res));
    } else {
        assert(init.last() == stages[stages.len() - 2]);
        let l = st.last.unwrap();
        let before = living(st, d);
        let prev = stage_dim(stages[stages.len() - 2], d);
        let now = stage_dim(stages.last(), d);
        assert(before.len() == prev);
        if now < prev {
            law_dying_features_are_the_newest(before, (prev - now) as nat, res, d);
        } else if now == prev {
            assert(before + Seq::new(0, |k: int| res) =~= before);
        }
    }
}

/// Law: after any sequence of stages, the living features of each degree
/// are exactly as many as the last stage's dimension in that degree (none
/// before the first stage).
pub proof fn law_living_features_match_last_dimensions<R>(stages: Seq<(R, usize, usize)>)
    ensures
        stages.len() == 0 ==> track_stages(stages).births0.len() == 0 && track_stages(stages).births1.len() == 0
            && track_stages(stages).last == Option::<(usize, usize)>::None,
        stages.len() > 0 ==> track_stages(stages).births0.len() == stages.last().1
            && track_stages(stages).births1.len() == stages.last().2
            && track_stages(stages).last == Option::Some((stages.last().1, stages.last().2)),
    decreases stages.len(),
{
    if stages.len() > 0 {
        let init = stages.drop_last();
        law_living_features_match_last_dimensions(init);
        let st = track_stages(init);
        let (res, h0, h1) = stages.last();
        match st.last {
            Option::Some(l) => {
                if h0 < l.0 {
                    lemma_kill_len(st.births0, (l.0 - h0) as nat, res, 0);
                }
                if h1 < l.1 {
                    lemma_kill_len(st.births1, (l.1 - h1) as nat, res, 1);
                }
            },
            Option::None => {},
        }
    }
}

/// Law: the persistence diagram ends with one point per feature still alive
/// at the last resolution, dying at `infinity`: first as many of degree 0 as
/// the last H⁰ dimension, then as many of degree 1 as the last H¹ dimension.
pub proof fn law_alive_points_match_last_dimensions<R>(stages: Seq<(R, usize, usize)>, infinity: R)
    requires
        stages.len() > 0,
    ensures
        diagram_points(stages, infinity).len() == track_stages(stages).points.len() + stages.last().1 + stages.last().2,
        forall|k: int| 0 <= k < stages.last().1 ==> {
            let p = #[trigger] diagram_points(stages, infinity)[track_stages(stages).points.len() + k];
            p.death == infinity && p.degree == 0
        },
        forall|k: int| 0 <= k < stages.last().2 ==> {
            let p = #[trigger] diagram_points(stages, infinity)[track_stages(stages).points.len() + stages.last().1 + k];
            p.death == infinity && p.degree == 1
        },
{
    law_living_features_match_last_dimensions(stages);
}

/// `r` is the resolution of stage `a`.
pub open spec fn stage_of<R>(stages: Seq<(R, usize, usize)>, r: R, a: int) -> bool {
    0 <= a < stages.len() && stages[a].0 == r
}

/// `r` is the resolution of some stage before `m`.
spec fn stage_before<R>(stages: Seq<(R, usize, usize)>, r: R, m: int) -> bool {
    exists|a: int| a < m && #[trigger] stage_of(stages, r, a)
}

/// Every birth in `births` is the resolution of some stage before `m`.
spec fn born_before<R>(stages: Seq<(R, usize, usize)>, births: Seq<R>, m: int) -> bool {
    forall|w: int| 0 <= w < births.len() ==> stage_before(stages, #[trigger] births[w], m)
}

/// Point `p` has degree 0 or 1, is born at some stage's resolution and dies
/// at the resolution of a later stage.
pub open spec fn dies_after_birth<R>(stages: Seq<(R, usize, usize)>, p: PersistencePoint<R>) -> bool {
    &&& p.degree <= 1
    &&& exists|a: int, b: int| #[trigger] stage_of(stages, p.birth, a) && #[trigger] stage_of(stages, p.death, b) && a < b
}

/// Killing pops from the top of the stack: what stays is a prefix, and each
/// point is born at one of the popped births and dies at `resolution`.
proof fn lemma_kill_shape<R>(births: Seq<R>, n: nat, resolution: R, degree: usize)
    ensures
        kill(births, n, resolution, degree).0.len() <= births.len(),
        forall|w: int| 0 <= w < kill(births, n, resolution, degree).0.len() ==> #[trigger] kill(births, n, resolution, degree).0[w] == births[w],
        forall|t: int| 0 <= t < kill(births, n, resolution, degree).1.len() ==> {
            let p = #[trigger] kill(births, n, resolution, degree).1[t];
            &&& p.death == resolution
            &&& p.degree == degree
            &&& exists|w: int| 0 <= w < births.len() && births[w] == p.birth
        },
    decreases n,
{
    if n > 0 && births.len() > 0 {
        let init = births.drop_last();
        lemma_kill_shape(init, (n - 1) as nat, resolution, degree);
        let rest = kill(init, (n - 1) as nat, resolution, degree);
        let k = kill(births, n, resolution, degree);
        assert(k.1 == seq![PersistencePoint { birth: births.last(), death: resolution, degree }] + rest.1);
        assert forall|t: int| 0 <= t < k.1.len() implies ({
            let p = #[trigger] k.1[t];
            &&& p.death == resolution
            &&& p.degree == degree
            &&& exists|w: int| 0 <= w < births.len() && births[w] == p.birth
        }) by {
            if t == 0 {
                assert(births[births.len() - 1] == k.1[t].birth);
            } else {
                assert(k.1[t] == rest.1[t - 1]);
                let w = choose|w: int| 0 <= w < init.len() && init[w] == rest.1[t - 1].birth;
                assert(births[w] == init[w]);
            }
        }
    }
}

/// One degree's update keeps its births born before the next stage, and its
/// new points die at the new stage's resolution after being born.
proof fn lemma_track_shape<R>(stages: Seq<(R, usize, usize)>, births: Seq<R>, prev: Option<usize>, dim: usize, degree: usize)
    requires
        stages.len() > 0,
        born_before(stages, births, stages.len() - 1),
        degree <= 1,
    ensures
        born_before(stages, track(births, prev, dim, stages.last().0, degree).0, stages.len() as int),
        forall|t: int| 0 <= t < track(births, prev, dim, stages.last().0, degree).1.len()
            ==> dies_after_birth(stages, #[trigger] track(births, prev, dim, stages.last().0, degree).1[t]),
{
    let m = stages.len() - 1;
    let res = stages.last().0;
    assert(stage_of(stages, res, m));
    let r = track(births, prev, dim, res, degree);
    let kills = match prev {
        Option::Some(p) => dim < p,
        Option::None => false,
    };
    if kills {
        let p = prev.unwrap();
        lemma_kill_shape(births, (p - dim) as nat, res, degree);
        assert forall|w: int| 0 <= w < r.0.len() implies stage_before(stages, #[trigger] r.0[w], stages.len() as int) by {
            assert(r.0[w] == births[w]);
            assert(stage_before(stages, births[w], m));
            let a = choose|a: int| a < m && #[trigger] stage_of(stages, births[w], a);
            assert(stage_of(stages, r.0[w], a));
        }
        assert forall|t: int| 0 <= t < r.1.len() implies dies_after_birth(stages, #[trigger] r.1[t]) by {
            let w = choose|w: int| 0 <= w < births.len() && births[w] == r.1[t].birth;
            assert(stage_before(stages, births[w], m));
            let a = choose|a: int| a < m && #[trigger] stage_of(stages, births[w], a);
            assert(stage_of(stages, r.1[t].birth, a) && stage_of(stages, r.1[t].death, m));
        }
    } else {
        assert forall|w: int| 0 <= w < r.0.len() implies stage_before(stages, #[trigger] r.0[w], stages.len() as int) by {
            if w < births.len() {
                assert(r.0[w] == births[w]);
                assert(stage_before(stages, births[w], m));
                let a = choose|a: int| a < m && #[trigger] stage_of(stages, births[w], a);
                assert(stage_of(stages, r.0[w], a));
            } else {
                assert(r.0[w] == res);
                assert(stage_of(stages, r.0[w], m));
            }
        }
    }
}

/// After any sequence of stages, living features were born at earlier
/// stages and every dead feature was born at one stage and died at a later one.
proof fn lemma_track_stages_shape<R>(stages: Seq<(R, usize, usize)>)
    ensures
        born_before(stages, track_stages(stages).births0, stages.len() as int),
        born_before(stages, track_stages(stages).births1, stages.len() as int),
        forall|t: int| 0 <= t < track_stages(stages).points.len() ==> dies_after_birth(stages, #[trigger] track_stages(stages).points[t]),
    decreases stages.len(),
{
    if stages.len() > 0 {
        let init = stages.drop_last();
        lemma_track_stages_shape(init);
        let st = track_stages(init);
        assert forall|r: R, a: int| #[trigger] stage_of(init, r, a) implies stage_of(stages, r, a) by {
            assert(init[a] == stages[a]);
        }
        assert(born_before(stages, st.births0, stages.len() - 1)) by {
            assert forall|w: int| 0 <= w < st.births0.len() implies stage_before(stages, #[trigger] st.births0[w], stages.len() - 1) by {
                assert(stage_before(init, st.births0[w], init.len() as int));
                let a = choose|a: int| a < init.len() && #[trigger] stage_of(init, st.births0[w], a);
                assert(stage_of(stages, st.births0[w], a));
            }
        }
        assert(born_before(stages, st.births1, stages.len() - 1)) by {
            assert forall|w: int| 0 <= w < st.births1.len() implies stage_before(stages, #[trigger] st.births1[w], stages.len() - 1) by {
                assert(stage_before(init, st.births1[w], init.len() as int));
                let a = choose|a: int| a < init.len() && #[trigger] stage_of(init, st.births1[w], a);
                assert(stage_of(stages, st.births1[w], a));
            }
        }
        let (res, h0, h1) = stages.last();
        let p0 = match st.last { Option::Some(l) => Option::Some(l.0), Option::None => Option::None };
        let p1 = match st.last { Option::Some(l) => Option::Some(l.1), Option::None => Option::None };
        lemma_track_shape(stages, st.births0, p0, h0, 0);
        lemma_track_shape(stages, st.births1, p1, h1, 1);
        let t0 = track(st.births0, p0, h0, res, 0);
        let t1 = track(st.births1, p1, h1, res, 1);
        let pts = track_stages(stages).points;
        assert(pts == st.points + t0.1 + t1.1);
        assert forall|t: int| 0 <= t < pts.len() implies dies_after_birth(stages, #[trigger] pts[t]) by {
            if t < st.points.len() {
                assert(pts[t] == st.points[t]);
                assert(dies_after_birth(init, st.points[t]));
                let (a, b) = choose|a: int, b: int| #[trigger] stage_of(init, st.points[t].birth, a) && #[trigger] stage_of(init, st.points[t].death, b) && a < b;
                assert(stage_of(stages, pts[t].birth, a) && stage_of(stages, pts[t].death, b));
            } else if t < st.points.len() + t0.1.len() {
                assert(pts[t] == t0.1[t - st.points.len()]);
            } else {
                assert(pts[t] == t1.1[t - st.points.len() - t0.1.len()]);
            }
        }
    }
}

/// Law: every point of the persistence diagram has degree 0 or 1 and is born
/// at the resolution of some stage; it dies at the resolution of a later
/// stage, or at `infinity` when it is still alive at the end.
pub proof fn law_points_born_and_die_at_stages<R>(stages: Seq<(R, usize, usize)>, infinity: R)
    ensures
        forall|t: int| 0 <= t < diagram_points(stages, infinity).len() ==> {
            let p = #[trigger] diagram_points(stages, infinity)[t];
            ||| dies_after_birth(stages, p)
            ||| (p.degree <= 1 && p.death == infinity && exists|a: int| #[trigger] stage_of(stages, p.birth, a))
        },
{
    lemma_track_stages_shape(stages);
    let s = track_stages(stages);
    let d = diagram_points(stages, infinity);
    let m0 = s.births0.map_values(|b: R| PersistencePoint { birth: b, death: infinity, degree: 0 });
    let m1 = s.births1.map_values(|b: R| PersistencePoint { birth: b, death: infinity, degree: 1 });
    assert(d == s.points + m0 + m1);
    assert forall|t: int| 0 <= t < d.len() implies ({
        let p = #[trigger] d[t];
        ||| dies_after_birth(stages, p)
        ||| (p.degree <= 1 && p.death == infinity && exists|a: int| #[trigger] stage_of(stages, p.birth, a))
    }) by {
        if t < s.points.len() {
            assert(d[t] == s.points[t]);
        } else if t < s.points.len() + m0.len() {
            let w = t - s.points.len();
            assert(d[t] == m0[w]);
            assert(stage_before(stages, s.births0[w], stages.len() as int));
            let a = choose|a: int| a < stages.len() && #[trigger] stage_of(stages, s.births0[w], a);
            assert(stage_of(stages, d[t].birth, a));
        } else {
            let w = t - s.points.len() - m0.len();
            assert(d[t] == m1[w]);
            assert(stage_before(stages, s.births1[w], stages.len() as int));
            let a = choose|a: int| a < stages.len() && #[trigger] stage_of(stages, s.births1[w], a);
            assert(stage_of(stages, d[t].birth, a));
        }
    }
}

/// Number of points of degree `d`.
pub open spec fn count_degree<R>(points: Seq<PersistencePoint<R>>, d: usize) -> nat
    decreases points.len(),
{
    if points.len() == 0 {
        0
    } else {
        count_degree(points.drop_last(), d) + if points.last().degree == d { 1nat } else { 0nat }
    }
}

/// The dimension of degree `d` (0 or 1) at a stage.
pub open spec fn stage_dim<R>(stage: (R, usize, usize), d: usize) -> int {
    if d == 0 {
        stage.1 as int
    } else {
        stage.2 as int
    }
}

/// Features of degree `d` born over the stages: all of the first stage's,
/// then every rise from one stage to the next.
pub open spec fn total_births<R>(stages: Seq<(R, usize, usize)>, d: usize) -> int
    decreases stages.len(),
{
    if stages.len() == 0 {
        0
    } else if stages.len() == 1 {
        stage_dim(stages[0], d)
    } else {
        let rise = stage_dim(stages.last(), d) - stage_dim(stages[stages.len() - 2], d);
        total_births(stages.drop_last(), d) + if rise > 0 { rise } else { 0 }
    }
}

/// Counting degree-`d` points is additive over concatenation.
proof fn lemma_count_degree_add<R>(a: Seq<PersistencePoint<R>>, b: Seq<PersistencePoint<R>>, d: usize)
    ensures
        count_degree(a + b, d) == count_degree(a, d) + count_degree(b, d),
    decreases b.len(),
{
    if b.len() > 0 {
        lemma_count_degree_add(a, b.drop_last(), d);
        assert((a + b).drop_last() =~= a + b.drop_last());
    }
}

/// Points that all have degree `e` count `len` for `d == e` and 0 otherwise.
proof fn lemma_count_degree_uniform<R>(points: Seq<PersistencePoint<R>>, e: usize, d: usize)
    requires
        forall|t: int| 0 <= t < points.len() ==> (#[trigger] points[t]).degree == e,
    ensures
        count_degree(points, d) == if d == e { points.len() } else { 0 },
    decreases points.len(),
{
    if points.len() > 0 {
        lemma_count_degree_uniform(points.drop_last(), e, d);
    }
}

/// Every feature ever born is either still alive or a point of the diagram
/// of its degree.
proof fn lemma_births_accounted<R>(stages: Seq<(R, usize, usize)>, d: usize)
    requires
        d <= 1,
    ensures
        count_degree(track_stages(stages).points, d) + (if d == 0 { track_stages(stages).births0.len() } else { track_stages(stages).births1.len() })
            == total_births(stages, d),
    decreases stages.len(),
{
    if stages.len() > 0 {
        let init = stages.drop_last();
        lemma_births_accounted(init, d);
        law_living_features_match_last_dimensions(init);
        let st = track_stages(init);
        let (res, h0, h1) = stages.last();
        let p0 = match st.last { Option::Some(l) => Option::Some(l.0), Option::None => Option::None };
        let p1 = match st.last { Option::Some(l) => Option::Some(l.1), Option::None => Option::None };
        let t0 = track(st.births0, p0, h0, res, 0);
        let t1 = track(st.births1, p1, h1, res, 1);
        lemma_count_degree_add(st.points, t0.1, d);
        lemma_count_degree_add(st.points + t0.1, t1.1, d);
        assert(track_stages(stages).points == st.points + t0.1 + t1.1);
        if init.len() > 0 {
            assert(init.last() == stages[stages.len() - 2]);
            if h0 < st.last.unwrap().0 {
                lemma_kill_len(st.births0, (st.last.unwrap().0 - h0) as nat, res, 0);
                lemma_kill_shape(st.births0, (st.last.unwrap().0 - h0) as nat, res, 0);
            }
            if h1 < st.last.unwrap().1 {
                lemma_kill_len(st.births1, (st.last.unwrap().1 - h1) as nat, res, 1);
                lemma_kill_shape(st.births1, (st.last.unwrap().1 - h1) as nat, res, 1);
            }
        }
        lemma_count_degree_uniform(t0.1, 0, d);
        lemma_count_degree_uniform(t1.1, 1, d);
    }
}

/// Law: the diagram has one point per feature ever born in each degree: as
/// many of degree `d` as the first stage's dimension plus every rise of that
/// dimension from one stage to the next.
pub proof fn law_points_per_degree<R>(stages: Seq<(R, usize, usize)>, infinity: R, d: usize)
    requires
        d <= 1,
    ensures
        count_degree(diagram_points(stages, infinity), d) == total_births(stages, d),
{
    lemma_births_accounted(stages, d);
    let s = track_stages(stages);
    let m0 = s.births0.map_values(|b: R| PersistencePoint { birth: b, death: infinity, degree: 0 });
    let m1 = s.births1.map_values(|b: R| PersistencePoint { birth: b, death: infinity, degree: 1 });
    assert(diagram_points(stages, infinity) == s.points + m0 + m1);
    lemma_count_degree_add(s.points, m0, d);
    lemma_count_degree_add(s.points + m0, m1, d);
    lemma_count_degree_uniform(m0, 0, d);
    lemma_count_degree_uniform(m1, 1, d);
}

/// The chunks of `s` hold exactly its elements; there are
/// `ceil(len / size)` of them.
proof fn lemma_chunks(s: Seq<usize>, size: nat)
    requires
        size > 0,
    ensures
        chunks(s, size).len() == if s.len() == 0 { 0 } else { (s.len() - 1) as nat / size + 1 },
        forall|t: int, x: usize| 0 <= t < chunks(s, size).len() && #[trigger] chunks(s, size)[t].contains(x) ==> s.contains(x),
        forall|x: usize| #[trigger] s.contains(x) ==> exists|t: int| 0 <= t < chunks(s, size).len() && chunks(s, size)[t].contains(x),
    decreases s.len(),
{
    let c = chunks(s, size);
    if s.len() == 0 {
    } else if s.len() <= size {
        assert(c[0] == s);
        vstd::arithmetic::div_mod::lemma_basic_div((s.len() - 1) as int, size as int);
    } else {
        let head = s.take(size as int);
        let tail = s.skip(size as int);
        lemma_chunks(tail, size);
        let rest = chunks(tail, size);
        assert(c == seq![head] + rest);
        vstd::arithmetic::div_mod::lemma_div_plus_one((tail.len() - 1) as int, size as int);
        assert(tail.len() - 1 + size == s.len() - 1);
        assert forall|t: int, x: usize| 0 <= t < c.len() && #[trigger] c[t].contains(x) implies s.contains(x) by {
            if t == 0 {
                let w = choose|w: int| 0 <= w < head.len() && head[w] == x;
                assert(s[w] == x);
            } else {
                assert(c[t] == rest[t - 1]);
                assert(tail.contains(x));
                let w = choose|w: int| 0 <= w < tail.len() && tail[w] == x;
                assert(s[w + size] == x);
            }
        }
        assert forall|x: usize| #[trigger] s.contains(x) implies exists|t: int| 0 <= t < c.len() && c[t].contains(x) by {
            let w = choose|w: int| 0 <= w < s.len() && s[w] == x;
            if w < size {
                assert(head[w] == x);
                assert(c[0].contains(x));
            } else {
                assert(tail[w - size] == x);
                assert(tail.contains(x));
                let t = choose|t: int| 0 <= t < rest.len() && rest[t].contains(x);
                assert(c[t + 1] == rest[t]);
            }
        }
    }
}

/// At resolution `r >= 1` a set is split into at most `r` chunks.
proof fn lemma_piece_count_bound(len: nat, r: nat)
    requires
        r >= 1,
    ensures
        1 <= piece_count(len, r) <= r,
{
    if len > 0 {
        let m = (len - 1) as int;
        let q = m / r as int;
        vstd::arithmetic::div_mod::lemma_fundamental_div_mod(m, r as int);
        vstd::arithmetic::div_mod::lemma_mod_bound(m, r as int);
        assert(m < r * (q + 1)) by (nonlinear_arith)
            requires
                m == r * q + m % (r as int),
                m % (r as int) < r,
        ;
        let t = m / (q + 1);
        vstd::arithmetic::div_mod::lemma_fundamental_div_mod(m, q + 1);
        vstd::arithmetic::div_mod::lemma_mod_bound(m, q + 1);
        assert(t < r) by (nonlinear_arith)
            requires
                q >= 0,
                t >= 0,
                (q + 1) * t <= m,
                m < r * (q + 1),
        ;
    }
}

/// A higher resolution never gives fewer chunks.
proof fn lemma_piece_count_monotone(len: nat, r1: nat, r2: nat)
    requires
        1 <= r1 <= r2,
    ensures
        piece_count(len, r1) <= piece_count(len, r2),
{
    if len > 0 {
        let m = (len - 1) as int;
        vstd::arithmetic::div_mod::lemma_div_is_ordered_by_denominator(m, r1 as int, r2 as int);
        let q1 = m / r1 as int;
        let q2 = m / r2 as int;
        vstd::arithmetic::div_mod::lemma_div_is_ordered_by_denominator(m, q2 + 1, q1 + 1);
    }
}

/// The pieces of a set at resolution `> 1` hold exactly its elements;
/// there are `piece_count` of them.
proof fn lemma_refine_pieces(s: Seq<usize>, resolution: nat)
    requires
        resolution > 1,
    ensures
        refine_pieces(s, resolution).len() >= 1,
        refine_pieces(s, resolution).len() == piece_count(s.len(), resolution),
        forall|t: int, x: usize| 0 <= t < refine_pieces(s, resolution).len() && #[trigger] refine_pieces(s, resolution)[t].contains(x) ==> s.contains(x),
        forall|x: usize| #[trigger] s.contains(x) ==> exists|t: int| 0 <= t < refine_pieces(s, resolution).len() && refine_pieces(s, resolution)[t].contains(x),
{
    if s.len() > 0 {
        lemma_chunks(s, piece_len(s.len(), resolution));
    }
    lemma_piece_count_bound(s.len(), resolution);
}

/// `p` is one of the pieces some set of `cover` is split into.
spec fn piece_of(cover: Seq<Seq<usize>>, resolution: nat, p: Seq<usize>) -> bool {
    exists|i: int, u: int|
        0 <= i < cover.len() && 0 <= u < refine_pieces(cover[i], resolution).len()
            && #[trigger] refine_pieces(cover[i], resolution)[u] == p
}

/// `p` occurs in `pieces`.
spec fn occurs(pieces: Seq<Seq<usize>>, p: Seq<usize>) -> bool {
    exists|t: int| 0 <= t < pieces.len() && #[trigger] pieces[t] == p
}

/// What splitting every set of a cover gives: every piece comes from some
/// set, every set's pieces all appear, and there are at least as many pieces
/// as sets.
proof fn lemma_refined_pieces(cover: Seq<Seq<usize>>, resolution: nat)
    requires
        resolution > 1,
    ensures
        refined_pieces(cover, resolution).len() >= cover.len(),
        forall|t: int| 0 <= t < refined_pieces(cover, resolution).len()
            ==> piece_of(cover, resolution, #[trigger] refined_pieces(cover, resolution)[t]),
        forall|i: int, u: int| 0 <= i < cover.len() && 0 <= u < refine_pieces(cover[i], resolution).len()
            ==> occurs(refined_pieces(cover, resolution), #[trigger] refine_pieces(cover[i], resolution)[u]),
    decreases cover.len(),
{
    if cover.len() > 0 {
        let init = cover.drop_last();
        let last = cover.last();
        lemma_refined_pieces(init, resolution);
        lemma_refine_pieces(last, resolution);
        let fi = refined_pieces(init, resolution);
        let fl = refine_pieces(last, resolution);
        let fm = refined_pieces(cover, resolution);
        assert(fm == fi + fl);
        assert forall|t: int| 0 <= t < fm.len() implies piece_of(cover, resolution, #[trigger] fm[t]) by {
            if t < fi.len() {
                assert(fm[t] == fi[t]);
                assert(piece_of(init, resolution, fi[t]));
                let (i, u) = choose|i: int, u: int| 0 <= i < init.len() && 0 <= u < refine_pieces(init[i], resolution).len() && #[trigger] refine_pieces(init[i], resolution)[u] == fi[t];
                assert(cover[i] == init[i]);
                assert(refine_pieces(cover[i], resolution)[u] == fm[t]);
            } else {
                assert(fm[t] == fl[t - fi.len()]);
                assert(cover[cover.len() - 1] == last);
                assert(refine_pieces(cover[cover.len() - 1], resolution)[t - fi.len()] == fm[t]);
            }
        }
        assert forall|i: int, u: int| 0 <= i < cover.len() && 0 <= u < refine_pieces(cover[i], resolution).len()
            implies occurs(fm, #[trigger] refine_pieces(cover[i], resolution)[u]) by {
            if i < cover.len() - 1 {
                assert(cover[i] == init[i]);
                assert(occurs(fi, refine_pieces(init[i], resolution)[u]));
                let t = choose|t: int| 0 <= t < fi.len() && #[trigger] fi[t] == refine_pieces(init[i], resolution)[u];
                assert(fm[t] == fi[t]);
            } else {
                assert(fm[fi.len() + u] == fl[u]);
            }
        }
    }
}

/// Normalizing a non-empty list of sets keeps each set's elements.
proof fn lemma_normalized_sets_members(sets: Seq<Seq<usize>>)
    requires
        sets.len() > 0,
    ensures
        normalized_sets(sets).len() == sets.len(),
        forall|t: int, x: usize| 0 <= t < sets.len() ==> (#[trigger] normalized_sets(sets)[t].contains(x) <==> sets[t].contains(x)),
{
    assert forall|t: int, x: usize| 0 <= t < sets.len() implies (#[trigger] normalized_sets(sets)[t].contains(x) <==> sets[t].contains(x)) by {
        lemma_normalized(sets[t]);
        assert(normalized_sets(sets)[t] == normalized(sets[t]));
        assert(normalized(sets[t]).to_set().contains(x) == sets[t].to_set().contains(x));
    }
}

/// Law: refining a cover keeps its universe: the same indices are covered.
pub proof fn law_refine_preserves_universe(cover: Seq<Seq<usize>>, resolution: nat)
    ensures
        union_of(refined(cover, resolution)) == union_of(cover),
{
    if resolution > 1 {
        let fm = refined_pieces(cover, resolution);
        let r = refined(cover, resolution);
        lemma_refined_pieces(cover, resolution);
        assert forall|x: usize| union_of(r).contains(x) <==> union_of(cover).contains(x) by {
            if fm.len() == 0 {
                assert(cover.len() == 0);
                if union_of(r).contains(x) {
                    let t = choose|t: int| 0 <= t < r.len() && #[trigger] r[t].contains(x);
                    assert(r[t] == Seq::<usize>::empty());
                }
            } else {
                lemma_normalized_sets_members(fm);
                if union_of(r).contains(x) {
                    let t = choose|t: int| 0 <= t < r.len() && #[trigger] r[t].contains(x);
                    assert(fm[t].contains(x));
                    assert(piece_of(cover, resolution, fm[t]));
                    let (i, u) = choose|i: int, u: int| 0 <= i < cover.len() && 0 <= u < refine_pieces(cover[i], resolution).len() && #[trigger] refine_pieces(cover[i], resolution)[u] == fm[t];
                    lemma_refine_pieces(cover[i], resolution);
                    assert(refine_pieces(cover[i], resolution)[u].contains(x));
                    assert(cover[i].contains(x));
                }
                if union_of(cover).contains(x) {
                    let i = choose|i: int| 0 <= i < cover.len() && #[trigger] cover[i].contains(x);
                    lemma_refine_pieces(cover[i], resolution);
                    let u = choose|u: int| 0 <= u < refine_pieces(cover[i], resolution).len() && refine_pieces(cover[i], resolution)[u].contains(x);
                    assert(occurs(fm, refine_pieces(cover[i], resolution)[u]));
                    let t = choose|t: int| 0 <= t < fm.len() && #[trigger] fm[t] == refine_pieces(cover[i], resolution)[u];
                    assert(r[t].contains(x));
                }
            }
        }
        assert(union_of(r) =~= union_of(cover));
    }
}

/// Law: a refinement is finer than the cover it comes from: each of its
/// sets lies inside some set of the cover it refines (which must have one).
pub proof fn law_refine_is_finer(cover: Seq<Seq<usize>>, resolution: nat, t: int)
    requires
        cover.len() > 0,
        0 <= t < refined(cover, resolution).len(),
    ensures
        exists|i: int| 0 <= i < cover.len() && #[trigger] contained_in(refined(cover, resolution)[t], cover[i]),
{
    if resolution <= 1 {
        assert(contained_in(refined(cover, resolution)[t], cover[t]));
    } else {
        let fm = refined_pieces(cover, resolution);
        lemma_refined_pieces(cover, resolution);
        lemma_normalized_sets_members(fm);
        assert(piece_of(cover, resolution, fm[t]));
        let (i, u) = choose|i: int, u: int| 0 <= i < cover.len() && 0 <= u < refine_pieces(cover[i], resolution).len() && #[trigger] refine_pieces(cover[i], resolution)[u] == fm[t];
        lemma_refine_pieces(cover[i], resolution);
        assert forall|x: usize| #[trigger] refined(cover, resolution)[t].contains(x) implies cover[i].contains(x) by {
            assert(fm[t].contains(x));
            assert(refine_pieces(cover[i], resolution)[u].contains(x));
        }
        assert(contained_in(refined(cover, resolution)[t], cover[i]));
    }
}

/// Every variable of `a` is a variable of `b`.
pub open spec fn contained_in(a: Seq<usize>, b: Seq<usize>) -> bool {
    forall|x: usize| #[trigger] a.contains(x) ==> b.contains(x)
}

/// Law: refining never lowers the number of sets.
pub proof fn law_refine_keeps_set_count(cover: Seq<Seq<usize>>, resolution: nat)
    ensures
        refined(cover, resolution).len() >= cover.len(),
{
    if resolution > 1 {
        lemma_refined_pieces(cover, resolution);
    }
}

/// Total number of pieces the sets of `cover` are split into at `resolution > 1`.
pub open spec fn pieces_total(cover: Seq<Seq<usize>>, resolution: nat) -> nat
    decreases cover.len(),
{
    if cover.len() == 0 {
        0
    } else {
        pieces_total(cover.drop_last(), resolution) + piece_count(cover.last().len(), resolution)
    }
}

/// Splitting every set gives `pieces_total` pieces.
proof fn lemma_refined_pieces_len(cover: Seq<Seq<usize>>, resolution: nat)
    requires
        resolution > 1,
    ensures
        refined_pieces(cover, resolution).len() == pieces_total(cover, resolution),
    decreases cover.len(),
{
    if cover.len() > 0 {
        lemma_refined_pieces_len(cover.drop_last(), resolution);
        lemma_refine_pieces(cover.last(), resolution);
    }
}

/// More resolution never gives fewer pieces, and every set gives at least one.
proof fn lemma_pieces_total_monotone(cover: Seq<Seq<usize>>, r1: nat, r2: nat)
    requires
        1 < r1 <= r2,
    ensures
        cover.len() <= pieces_total(cover, r1) <= pieces_total(cover, r2),
    decreases cover.len(),
{
    if cover.len() > 0 {
        lemma_pieces_total_monotone(cover.drop_last(), r1, r2);
        lemma_piece_count_monotone(cover.last().len(), r1, r2);
        lemma_piece_count_bound(cover.last().len(), r1);
    }
}

/// Law: at resolution `> 1` a non-empty set is cut into consecutive chunks
/// of `ceil(len / resolution)` elements, the last one possibly shorter
/// (single elements when it has at most `resolution` elements); an empty set
/// stays as it is. There are at most `resolution` pieces, and they hold
/// exactly the set's elements.
pub proof fn law_refine_splits_each_set(s: Seq<usize>, resolution: nat)
    requires
        resolution > 1,
    ensures
        1 <= refine_pieces(s, resolution).len() <= resolution,
        s.len() > 0 ==> refine_pieces(s, resolution) == chunks(s, piece_len(s.len(), resolution)),
        s.len() > resolution ==> piece_len(s.len(), resolution) * resolution >= s.len(),
        s.len() > resolution ==> (piece_len(s.len(), resolution) - 1) * resolution < s.len(),
        0 < s.len() <= resolution ==> piece_len(s.len(), resolution) == 1,
        forall|t: int, x: usize| 0 <= t < refine_pieces(s, resolution).len() && #[trigger] refine_pieces(s, resolution)[t].contains(x) ==> s.contains(x),
        forall|x: usize| #[trigger] s.contains(x) ==> exists|t: int| 0 <= t < refine_pieces(s, resolution).len() && refine_pieces(s, resolution)[t].contains(x),
{
    lemma_refine_pieces(s, resolution);
    lemma_piece_count_bound(s.len(), resolution);
    if s.len() > 0 {
        let m = (s.len() - 1) as int;
        let r = resolution as int;
        vstd::arithmetic::div_mod::lemma_fundamental_div_mod(m, r);
        vstd::arithmetic::div_mod::lemma_mod_bound(m, r);
        let q = m / r;
        assert((q + 1) * r >= m + 1 && q * r <= m) by (nonlinear_arith)
            requires
                m == r * q + m % r,
                0 <= m % r < r,
        ;
        if s.len() <= resolution {
            assert(q == 0) by (nonlinear_arith)
                requires
                    q * r <= m,
                    m < r,
                    (q + 1) * r >= m + 1,
                    r > 1,
                    m >= 0,
            ;
        }
    }
}

/// Law: a higher resolution never gives a cover with fewer sets.
pub proof fn law_refine_never_fewer_sets(cover: Seq<Seq<usize>>, r1: nat, r2: nat)
    requires
        r1 <= r2,
    ensures
        refined(cover, r1).len() <= refined(cover, r2).len(),
{
    if r2 > 1 {
        lemma_refined_pieces_len(cover, r2);
        if r1 > 1 {
            lemma_refined_pieces_len(cover, r1);
            lemma_pieces_total_monotone(cover, r1, r2);
        } else {
            lemma_pieces_total_monotone(cover, r2, r2);
        }
    }
}

} // verus!
