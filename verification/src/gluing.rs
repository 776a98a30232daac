//! Gluing local sections into a global section.
//!
//! When H¹ = 0 the sections are collated over the whole universe: every
//! variable takes its value from the section of the lowest agent id that
//! covers it (the earliest such section on ties). The collated section is
//! the result only when it restricts to every section; otherwise gluing
//! reports the sections as inconsistent.

use vstd::prelude::*;
use crate::cover::{OpenCover, union_of, first_index, position_of};
use crate::section::{LocalSection, SectionFamily};

verus! {

/// Result of trying to glue local sections into a global section.
#[derive(Debug, Clone, PartialEq)]
pub enum GluingResult<T> {
    /// A global section over `0..=max` of the universe.
    Success(Vec<T>),
    /// H¹ ≠ 0: the obstruction dimension.
    Failed { h1_dimension: usize },
    /// H¹ = 0, but the collated values do not restrict to every section:
    /// two sections contradict each other on an overlap, or a section has
    /// no value for a variable of its set.
    Inconsistent,
}

/// Section `p` exists, its agent has a set, and that set contains variable `x`.
pub open spec fn covered_by<T>(cover: Seq<Seq<usize>>, secs: Seq<LocalSection<T>>, x: usize, p: int) -> bool {
    0 <= p < secs.len() && secs[p].agent_id < cover.len() && cover[secs[p].agent_id as int].contains(x)
}

/// Section `p` comes no later than section `q` when sections are ordered by
/// agent id, ties kept in list order.
pub open spec fn precedes<T>(secs: Seq<LocalSection<T>>, p: int, q: int) -> bool {
    secs[p].agent_id < secs[q].agent_id || (secs[p].agent_id == secs[q].agent_id && p <= q)
}

/// Section `p` is the one that supplies variable `x`: the first, in agent-id
/// order, of the sections covering `x`.
pub open spec fn is_owner<T>(cover: Seq<Seq<usize>>, secs: Seq<LocalSection<T>>, x: usize, p: int) -> bool {
    &&& covered_by(cover, secs, x, p)
    &&& forall|q: int| #[trigger] covered_by(cover, secs, x, q) ==> precedes(secs, p, q)
}

/// The value of variable `x` in the glued section: the owner's value at the
/// first position of `x` in its set, or `fill` when no section covers `x`.
pub open spec fn glued_value<T>(cover: Seq<Seq<usize>>, secs: Seq<LocalSection<T>>, x: usize, fill: T) -> T {
    if exists|p: int| is_owner(cover, secs, x, p) {
        let p = choose|p: int| is_owner(cover, secs, x, p);
        secs[p].data@[first_index(cover[secs[p].agent_id as int], x)]
    } else {
        fill
    }
}

/// `m` is the largest covered variable.
pub open spec fn is_max_of(s: Set<usize>, m: usize) -> bool {
    s.contains(m) && forall|y: usize| #[trigger] s.contains(y) ==> y <= m
}

/// Length of the glued section: one past the largest covered variable, or
/// 0 when nothing is covered.
pub open spec fn glued_len(cover: Seq<Seq<usize>>) -> nat {
    if exists|m: usize| is_max_of(union_of(cover), m) {
        let m = choose|m: usize| is_max_of(union_of(cover), m);
        (m + 1) as nat
    } else {
        0
    }
}

/// The sections can be glued without an out-of-range access: when anything
/// is covered, every agent has a set; every owner holds a value for the
/// variables it supplies; and the largest covered variable leaves room for
/// one more.
pub open spec fn gluable<T>(cover: Seq<Seq<usize>>, secs: Seq<LocalSection<T>>) -> bool {
    &&& (exists|y: usize| union_of(cover).contains(y)) ==> forall|p: int|
        0 <= p < secs.len() ==> (#[trigger] secs[p]).agent_id < cover.len()
    &&& forall|x: usize, p: int| #[trigger] is_owner(cover, secs, x, p)
        ==> first_index(cover[secs[p].agent_id as int], x) < secs[p].data@.len()
    &&& forall|y: usize| #[trigger] union_of(cover).contains(y) ==> y < usize::MAX
}

/// `r` is the successful gluing: the glued value of every variable below
/// `glued_len`.
pub open spec fn glued_as_described<T>(
    cover: Seq<Seq<usize>>,
    secs: Seq<LocalSection<T>>,
    fill: T,
    r: GluingResult<T>,
) -> bool {
    match r {
        GluingResult::Success(v) => {
            &&& v@.len() == glued_len(cover)
            &&& forall|x: int|
                0 <= x < v@.len() ==> #[trigger] v@[x] == glued_value(cover, secs, x as usize, fill)
        },
        _ => false,
    }
}

/// Section `q` holds a value for variable `x`: its data reaches the first
/// position of `x` in its agent's set.
pub open spec fn holds_value<T>(cover: Seq<Seq<usize>>, secs: Seq<LocalSection<T>>, x: usize, q: int) -> bool {
    first_index(cover[secs[q].agent_id as int], x) < secs[q].data@.len()
}

/// Every section that covers a variable holds a value for it, which `agree`
/// accepted against the collated value of that variable.
pub open spec fn accepted_by<T, F: Fn(T, T) -> bool>(cover: Seq<Seq<usize>>, secs: Seq<LocalSection<T>>, fill: T, agree: F) -> bool {
    forall|x: usize, q: int| #[trigger] covered_by(cover, secs, x, q) ==> holds_value(cover, secs, x, q)
        && call_ensures(agree, (glued_value(cover, secs, x, fill), section_value(cover, secs[q], x)), true)
}

/// Some section that covers a variable holds no value for it, or `agree`
/// rejected its value against the collated value of that variable.
pub open spec fn rejected_by<T, F: Fn(T, T) -> bool>(cover: Seq<Seq<usize>>, secs: Seq<LocalSection<T>>, fill: T, agree: F) -> bool {
    exists|x: usize, q: int| #[trigger] covered_by(cover, secs, x, q) && (!holds_value(cover, secs, x, q)
        || call_ensures(agree, (glued_value(cover, secs, x, fill), section_value(cover, secs[q], x)), false))
}

/// What gluing with H¹ = 0 gives: the collated section when it restricts to
/// every section (as `agree` judges), `Inconsistent` when it does not.
pub open spec fn glue_outcome<T, F: Fn(T, T) -> bool>(
    cover: Seq<Seq<usize>>,
    secs: Seq<LocalSection<T>>,
    fill: T,
    agree: F,
    r: GluingResult<T>,
) -> bool {
    match r {
        GluingResult::Success(_) => glued_as_described(cover, secs, fill, r) && accepted_by(cover, secs, fill, agree),
        GluingResult::Inconsistent => rejected_by(cover, secs, fill, agree),
        GluingResult::Failed { .. } => false,
    }
}

/// For every variable below `n`: whether some section covers it and, if
/// so, the section that owns it.
fn find_owners<T>(cover: &OpenCover, sections: &SectionFamily<T>, n: usize) -> (r: (Vec<bool>, Vec<usize>))
    requires
        forall|p: int| 0 <= p < sections.sections@.len() ==> (#[trigger] sections.sections@[p]).agent_id < cover@.len(),
        forall|y: usize| #[trigger] union_of(cover@).contains(y) ==> y < n,
    ensures
        r.0@.len() == n,
        r.1@.len() == n,
        forall|y: int| 0 <= y < n ==> (#[trigger] r.0@[y] <==> (exists|q: int| 0 <= q < sections.sections@.len() && #[trigger] covered_by(cover@, sections.sections@, y as usize, q))),
        forall|y: int| 0 <= y < n && #[trigger] r.0@[y] ==> is_owner(cover@, sections.sections@, y as usize, r.1@[y] as int),
{
    let ghost cv = cover@;
    let ghost secs = sections.sections@;
    let mut has_owner: Vec<bool> = Vec::new();
    let mut owner: Vec<usize> = Vec::new();
    let mut x: usize = 0;
    while x < n
        invariant
            x <= n,
            has_owner@.len() == x,
            owner@.len() == x,
            forall|y: int| 0 <= y < x ==> !has_owner@[y],
        decreases n - x,
    {
        has_owner.push(false);
        owner.push(0);
        x += 1;
    }
    let mut p: usize = 0;
    while p < sections.sections.len()
        invariant
            cv == cover@,
            secs == sections.sections@,
            forall|q: int| 0 <= q < secs.len() ==> (#[trigger] secs[q]).agent_id < cv.len(),
            forall|y: usize| #[trigger] union_of(cv).contains(y) ==> y < n,
            p <= secs.len(),
            has_owner@.len() == n,
            owner@.len() == n,
            forall|y: int| 0 <= y < n ==> (#[trigger] has_owner@[y] <==> (exists|q: int| 0 <= q < p && #[trigger] covered_by(cv, secs, y as usize, q))),
            forall|y: int| 0 <= y < n && #[trigger] has_owner@[y] ==> {
                let q = owner@[y] as int;
                &&& q < p
                &&& covered_by(cv, secs, y as usize, q)
                &&& forall|q2: int| 0 <= q2 < p && #[trigger] covered_by(cv, secs, y as usize, q2) ==> precedes(secs, q, q2)
            },
        decreases secs.len() - p,
    {
        let agent = sections.sections[p].agent_id;
        let set = &cover.sets[agent];
        assert(set@ == cv[agent as int]);
        let mut k: usize = 0;
        while k < set.len()
            invariant
                cv == cover@,
                secs == sections.sections@,
                forall|q: int| 0 <= q < secs.len() ==> (#[trigger] secs[q]).agent_id < cv.len(),
                p < secs.len(),
                agent == secs[p as int].agent_id,
                set@ == cv[agent as int],
                forall|y: usize| #[trigger] union_of(cv).contains(y) ==> y < n,
                k <= set@.len(),
                has_owner@.len() == n,
                owner@.len() == n,
                forall|y: int| 0 <= y < n ==> (#[trigger] has_owner@[y] <==> (exists|q: int| 0 <= q < p && #[trigger] covered_by(cv, secs, y as usize, q)) || set@.take(k as int).contains(y as usize)),
                forall|y: int| 0 <= y < n && #[trigger] has_owner@[y] ==> {
                    let q = owner@[y] as int;
                    &&& q <= p
                    &&& covered_by(cv, secs, y as usize, q)
                    &&& (q == p ==> set@.take(k as int).contains(y as usize))
                    &&& forall|q2: int| 0 <= q2 < p && #[trigger] covered_by(cv, secs, y as usize, q2) ==> precedes(secs, q, q2)
                    &&& (set@.take(k as int).contains(y as usize) ==> precedes(secs, q, p as int))
                },
            decreases set@.len() - k,
        {
            let y = set[k];
            proof {
                assert(cv[agent as int].contains(y));
                assert(union_of(cv).contains(y));
                assert(set@.take(k + 1) =~= set@.take(k as int).push(y));
            }
            let ghost old_has = has_owner@;
            let ghost old_owner = owner@;
            let ghost tk = set@.take(k as int);
            let ghost tk1 = set@.take(k + 1);
            if y < n {
                if !has_owner[y] || sections.sections[owner[y]].agent_id > agent {
                    has_owner.set(y, true);
                    owner.set(y, p);
                }
            }
            proof {
                assert(covered_by(cv, secs, y, p as int));
                assert forall|z: usize| #[trigger] tk1.contains(z) <==> (tk.contains(z) || z == y) by {
                    if tk1.contains(z) {
                        let w = choose|w: int| 0 <= w < tk1.len() && tk1[w] == z;
                        if w < k {
                            assert(tk[w] == z);
                        }
                    }
                    if tk.contains(z) {
                        let w = choose|w: int| 0 <= w < tk.len() && tk[w] == z;
                        assert(tk1[w] == z);
                    }
                    if z == y {
                        assert(tk1[k as int] == z);
                    }
                }
                assert forall|yy: int| 0 <= yy < n implies (#[trigger] has_owner@[yy] <==> (exists|q: int| 0 <= q < p && #[trigger] covered_by(cv, secs, yy as usize, q)) || tk1.contains(yy as usize)) by {
                    if yy != y as int {
                        assert(has_owner@[yy] == old_has[yy]);
                    }
                }
                assert forall|yy: int| 0 <= yy < n && #[trigger] has_owner@[yy] implies ({
                    let q = owner@[yy] as int;
                    &&& q <= p
                    &&& covered_by(cv, secs, yy as usize, q)
                    &&& (q == p ==> tk1.contains(yy as usize))
                    &&& forall|q2: int| 0 <= q2 < p && #[trigger] covered_by(cv, secs, yy as usize, q2) ==> precedes(secs, q, q2)
                    &&& (tk1.contains(yy as usize) ==> precedes(secs, q, p as int))
                }) by {
                    if yy != y as int {
                        assert(has_owner@[yy] == old_has[yy]);
                        assert(owner@[yy] == old_owner[yy]);
                    } else if owner@[yy] == p && (!old_has[yy] || old_owner[yy] != p) {
                        assert forall|q2: int| 0 <= q2 < p && #[trigger] covered_by(cv, secs, yy as usize, q2) implies precedes(secs, p as int, q2) by {
                            assert(old_has[yy]);
                            let qo = old_owner[yy] as int;
                            assert(precedes(secs, qo, q2));
                        }
                    } else {
                        assert(old_has[yy]);
                    }
                }
            }
            k += 1;
        }
        proof {
            assert(set@.take(set@.len() as int) =~= set@);
            assert forall|y: int| 0 <= y < n implies (#[trigger] has_owner@[y] <==> (exists|q: int| 0 <= q < p + 1 && #[trigger] covered_by(cv, secs, y as usize, q))) by {
                if has_owner@[y] {
                    if !(exists|q: int| 0 <= q < p && #[trigger] covered_by(cv, secs, y as usize, q)) {
                        assert(covered_by(cv, secs, y as usize, p as int));
                    }
                } else {
                    assert(!covered_by(cv, secs, y as usize, p as int));
                }
            }
            assert forall|y: int| 0 <= y < n && #[trigger] has_owner@[y] implies ({
                let q = owner@[y] as int;
                &&& q < p + 1
                &&& covered_by(cv, secs, y as usize, q)
                &&& forall|q2: int| 0 <= q2 < p + 1 && #[trigger] covered_by(cv, secs, y as usize, q2) ==> precedes(secs, q, q2)
            }) by {
                let q = owner@[y] as int;
                assert forall|q2: int| 0 <= q2 < p + 1 && #[trigger] covered_by(cv, secs, y as usize, q2) implies precedes(secs, q, q2) by {
                    if q2 == p {
                        assert(set@.contains(y as usize));
                    }
                }
            }
        }
        p += 1;
    }

    proof {
        assert forall|y: int| 0 <= y < n && #[trigger] has_owner@[y] implies is_owner(cv, secs, y as usize, owner@[y] as int) by {
            let q = owner@[y] as int;
            assert forall|q2: int| #[trigger] covered_by(cv, secs, y as usize, q2) implies precedes(secs, q, q2) by {
            }
        }
    }
    (has_owner, owner)
}

/// The collated section: for each variable `0..=max` of the universe, the
/// value of the section that owns it (lowest agent id, earliest on ties), or
/// `fill` when no section covers it.
fn collate<T: Copy>(cover: &OpenCover, sections: &SectionFamily<T>, fill: T) -> (r: Vec<T>)
    requires
        gluable(cover@, sections.sections@),
    ensures
        glued_as_described(cover@, sections.sections@, fill, GluingResult::Success(r)),
{
    let ghost cv = cover@;
    let ghost secs = sections.sections@;
    let universe = cover.universe();
    if universe.len() == 0 {
        proof {
            if exists|m: usize| is_max_of(union_of(cv), m) {
                let m = choose|m: usize| is_max_of(union_of(cv), m);
                assert(universe@.to_set().contains(m));
            }
        }
        return Vec::new();
    }
    let last = universe[universe.len() - 1];
    proof {
        assert(universe@.to_set().contains(last));
        assert forall|y: usize| #[trigger] union_of(cv).contains(y) implies y <= last by {
            assert(universe@.to_set().contains(y));
            let w = choose|w: int| 0 <= w < universe@.len() && universe@[w] == y;
            if w < universe@.len() - 1 {
                assert(universe@[w] < universe@[universe@.len() - 1]);
            }
        }
        assert(is_max_of(union_of(cv), last));
        let m = choose|m: usize| is_max_of(union_of(cv), m);
        assert(m <= last && last <= m);
    }
    let n = last + 1;

    let (has_owner, owner) = find_owners(cover, sections, n);

    // Phase 2: read each variable's value from its owner.
    let mut global: Vec<T> = Vec::new();
    let mut x: usize = 0;
    while x < n
        invariant
            cv == cover@,
            secs == sections.sections@,
            gluable(cv, secs),
            forall|q: int| 0 <= q < secs.len() ==> (#[trigger] secs[q]).agent_id < cv.len(),
            n == last + 1,
            x <= n,
            has_owner@.len() == n,
            owner@.len() == n,
            global@.len() == x,
            forall|y: int| 0 <= y < n ==> (#[trigger] has_owner@[y] <==> (exists|q: int| 0 <= q < secs.len() && #[trigger] covered_by(cv, secs, y as usize, q))),
            forall|y: int| 0 <= y < n && #[trigger] has_owner@[y] ==> is_owner(cv, secs, y as usize, owner@[y] as int),
            forall|y: int| 0 <= y < x ==> #[trigger] global@[y] == glued_value(cv, secs, y as usize, fill),
        decreases n - x,
    {
        if has_owner[x] {
            let q = owner[x];
            let sec = &sections.sections[q];
            let set = &cover.sets[sec.agent_id];
            proof {
                assert(is_owner(cv, secs, x, q as int));
                assert(set@ == cv[secs[q as int].agent_id as int]);
                assert(set@.contains(x));
            }
            match position_of(set.as_slice(), x) {
                Some(pos) => {
                    proof {
                        assert(pos == first_index(cv[secs[q as int].agent_id as int], x));
                        assert(pos < sec.data@.len());
                        let o = choose|o: int| is_owner(cv, secs, x, o);
                        assert(precedes(secs, o, q as int) && precedes(secs, q as int, o));
                        assert(o == q);
                    }
                    global.push(sec.data[pos]);
                },
                None => {
                    assert(false);
                    global.push(fill);
                },
            }
        } else {
            proof {
                assert forall|o: int| !is_owner(cv, secs, x, o) by {
                    if is_owner(cv, secs, x, o) {
                        assert(!has_owner@[x as int]);
                        assert(covered_by(cv, secs, (x as int) as usize, o));
                        assert(o < secs.len());
                    }
                }
            }
            global.push(fill);
        }
        x += 1;
    }
    global
}

/// A variable that some section covers lies below the collated length.
proof fn lemma_covered_below_len<T>(cover: Seq<Seq<usize>>, secs: Seq<LocalSection<T>>, x: usize, q: int)
    requires
        covered_by(cover, secs, x, q),
    ensures
        x < glued_len(cover),
{
    assert(union_of(cover).contains(x));
    let m = lemma_union_max(cover, x);
    let mm = choose|m2: usize| is_max_of(union_of(cover), m2);
    assert(mm == m);
}

/// Glue a family of sections, given the dimension of H¹ for the cover and
/// `agree`, which judges whether a section's value matches the collated one.
///
/// With H¹ ≠ 0 gluing fails with that dimension. Otherwise the sections are
/// collated (`collate`), and the result is that global section when it
/// restricts to every section: each section holds a value for every variable
/// of its set, and `agree` accepts it. If not, the result is `Inconsistent`.
pub fn glue_sections<T: Copy, F: Fn(T, T) -> bool>(
    cover: &OpenCover,
    sections: &SectionFamily<T>,
    h1_dimension: usize,
    fill: T,
    agree: F,
) -> (r: GluingResult<T>)
    requires
        h1_dimension == 0 ==> gluable(cover@, sections.sections@),
        forall|a: T, b: T| agree.requires((a, b)),
    ensures
        h1_dimension > 0 ==> (r == (GluingResult::<T>::Failed { h1_dimension })),
        h1_dimension == 0 ==> glue_outcome(cover@, sections.sections@, fill, agree, r),
{
    if h1_dimension > 0 {
        return GluingResult::Failed { h1_dimension };
    }
    let ghost cv = cover@;
    let ghost secs = sections.sections@;
    let global = collate(cover, sections, fill);
    let mut q: usize = 0;
    while q < sections.sections.len()
        invariant
            cv == cover@,
            secs == sections.sections@,
            h1_dimension == 0,
            gluable(cv, secs),
            forall|a: T, b: T| agree.requires((a, b)),
            glued_as_described(cv, secs, fill, GluingResult::Success(global)),
            q <= secs.len(),
            forall|x: usize, q2: int| 0 <= q2 < q && #[trigger] covered_by(cv, secs, x, q2) ==> holds_value(cv, secs, x, q2)
                && call_ensures(agree, (glued_value(cv, secs, x, fill), section_value(cv, secs[q2], x)), true),
        decreases secs.len() - q,
    {
        let sec = &sections.sections[q];
        if sec.agent_id < cover.sets.len() {
            let set = &cover.sets[sec.agent_id];
            assert(set@ == cv[secs[q as int].agent_id as int]);
            let mut k: usize = 0;
            while k < set.len()
                invariant
                    cv == cover@,
                    secs == sections.sections@,
                    h1_dimension == 0,
                    forall|a: T, b: T| agree.requires((a, b)),
                    glued_as_described(cv, secs, fill, GluingResult::Success(global)),
                    q < secs.len(),
                    *sec == secs[q as int],
                    sec.agent_id < cv.len(),
                    set@ == cv[sec.agent_id as int],
                    k <= set@.len(),
                    forall|x: usize| #[trigger] set@.take(k as int).contains(x) ==> holds_value(cv, secs, x, q as int)
                        && call_ensures(agree, (glued_value(cv, secs, x, fill), section_value(cv, secs[q as int], x)), true),
                decreases set@.len() - k,
            {
                let x = set[k];
                proof {
                    assert(set@.contains(x));
                    assert(covered_by(cv, secs, x, q as int));
                    lemma_covered_below_len(cv, secs, x, q as int);
                }
                let pos = match position_of(set.as_slice(), x) {
                    Some(m) => m,
                    None => {
                        assert(false);
                        0
                    },
                };
                if pos >= sec.data.len() {
                    assert(covered_by(cv, secs, x, q as int) && !holds_value(cv, secs, x, q as int));
                    return GluingResult::Inconsistent;
                }
                let ok = agree(global[x], sec.data[pos]);
                proof {
                    assert(global@[x as int] == glued_value(cv, secs, x, fill));
                }
                if !ok {
                    assert(covered_by(cv, secs, x, q as int));
                    return GluingResult::Inconsistent;
                }
                proof {
                    let tk = set@.take(k as int);
                    let tk1 = set@.take(k + 1);
                    assert forall|z: usize| #[trigger] tk1.contains(z) implies tk.contains(z) || z == x by {
                        let w = choose|w: int| 0 <= w < tk1.len() && tk1[w] == z;
                        if w < k {
                            assert(tk[w] == z);
                        }
                    }
                }
                k += 1;
            }
            proof {
                assert(set@.take(set@.len() as int) =~= set@);
            }
        }
        q += 1;
    }
    GluingResult::Success(global)
}

/// Whether `glue_sections` can glue these sections (with H¹ = 0) without an
/// out-of-range access: decides `gluable`.
pub fn can_glue<T>(cover: &OpenCover, sections: &SectionFamily<T>) -> (r: bool)
    ensures
        r == gluable(cover@, sections.sections@),
{
    let ghost cv = cover@;
    let ghost secs = sections.sections@;
    let universe = cover.universe();
    if universe.len() == 0 {
        proof {
            assert forall|x: usize, q: int| #[trigger] is_owner(cv, secs, x, q) implies first_index(cv[secs[q].agent_id as int], x) < secs[q].data@.len() by {
                assert(cv[secs[q].agent_id as int].contains(x));
                assert(union_of(cv).contains(x));
                assert(universe@.to_set().contains(x));
            }
            assert forall|y: usize| #[trigger] union_of(cv).contains(y) implies y < usize::MAX by {
                assert(universe@.to_set().contains(y));
            }
            assert(!(exists|y: usize| union_of(cv).contains(y))) by {
                assert forall|y: usize| !union_of(cv).contains(y) by {
                    if union_of(cv).contains(y) {
                        assert(universe@.to_set().contains(y));
                    }
                }
            }
        }
        return true;
    }
    let last = universe[universe.len() - 1];
    proof {
        assert(universe@.to_set().contains(last));
        assert forall|y: usize| #[trigger] union_of(cv).contains(y) implies y <= last by {
            assert(universe@.to_set().contains(y));
            let w = choose|w: int| 0 <= w < universe@.len() && universe@[w] == y;
            if w < universe@.len() - 1 {
                assert(universe@[w] < universe@[universe@.len() - 1]);
            }
        }
    }
    let mut p: usize = 0;
    while p < sections.sections.len()
        invariant
            secs == sections.sections@,
            cv == cover@,
            union_of(cv).contains(last),
            p <= secs.len(),
            forall|q: int| 0 <= q < p ==> (#[trigger] secs[q]).agent_id < cv.len(),
        decreases secs.len() - p,
    {
        if sections.sections[p].agent_id >= cover.sets.len() {
            assert(!((secs[p as int]).agent_id < cv.len()));
            assert(union_of(cv).contains(last));
            return false;
        }
        p += 1;
    }
    if last == usize::MAX {
        assert(union_of(cv).contains(last));
        return false;
    }
    let n = last + 1;
    let (has_owner, owner) = find_owners(cover, sections, n);
    let mut x: usize = 0;
    while x < n
        invariant
            cv == cover@,
            secs == sections.sections@,
            forall|q: int| 0 <= q < secs.len() ==> (#[trigger] secs[q]).agent_id < cv.len(),
            forall|y: usize| #[trigger] union_of(cv).contains(y) ==> y < n,
            x <= n,
            has_owner@.len() == n,
            owner@.len() == n,
            forall|y: int| 0 <= y < n && #[trigger] has_owner@[y] ==> is_owner(cv, secs, y as usize, owner@[y] as int),
            forall|y: int| 0 <= y < n ==> (#[trigger] has_owner@[y] <==> (exists|q: int| 0 <= q < secs.len() && #[trigger] covered_by(cv, secs, y as usize, q))),
            forall|y: usize, q: int| y < x && #[trigger] is_owner(cv, secs, y, q) ==> first_index(cv[secs[q].agent_id as int], y) < secs[q].data@.len(),
        decreases n - x,
    {
        let ghost xi = x as int;
        if has_owner[x] {
            let q = owner[x];
            let sec = &sections.sections[q];
            let set = &cover.sets[sec.agent_id];
            proof {
                assert(is_owner(cv, secs, x, q as int));
                assert(set@ == cv[secs[q as int].agent_id as int]);
            }
            match position_of(set.as_slice(), x) {
                Some(pos) => {
                    proof {
                        assert(pos == first_index(cv[secs[q as int].agent_id as int], x));
                        assert(sec.data@ == secs[q as int].data@);
                    }
                    if pos >= sec.data.len() {
                        assert(is_owner(cv, secs, x, q as int));
                        return false;
                    }
                    proof {
                        assert forall|y: usize, o: int| y < x + 1 && #[trigger] is_owner(cv, secs, y, o) implies first_index(cv[secs[o].agent_id as int], y) < secs[o].data@.len() by {
                            if y == x {
                                assert(precedes(secs, o, q as int) && precedes(secs, q as int, o));
                                assert(o == q as int);
                                assert(first_index(cv[secs[o].agent_id as int], y) == pos);
                                assert(pos < secs[o].data@.len());
                            } else {
                                assert(y < x);
                                assert(first_index(cv[secs[o].agent_id as int], y) < secs[o].data@.len());
                            }
                        }
                    }
                },
                None => {
                    assert(false);
                },
            }
        } else {
            proof {
                assert forall|y: usize, o: int| y < x + 1 && #[trigger] is_owner(cv, secs, y, o) implies first_index(cv[secs[o].agent_id as int], y) < secs[o].data@.len() by {
                    if y == x {
                        assert(!has_owner@[xi]);
                        assert(covered_by(cv, secs, (xi) as usize, o));
                        assert(o < secs.len());
                    }
                }
            }
        }
        x += 1;
    }
    proof {
        assert forall|y: usize, o: int| #[trigger] is_owner(cv, secs, y, o) implies first_index(cv[secs[o].agent_id as int], y) < secs[o].data@.len() by {
            assert(cv[secs[o].agent_id as int].contains(y));
            assert(union_of(cv).contains(y));
        }
    }
    true
}

/// The value that section `s` gives variable `x`: the one at the first
/// position of `x` in its agent's set.
pub open spec fn section_value<T>(cover: Seq<Seq<usize>>, s: LocalSection<T>, x: usize) -> T {
    s.data@[first_index(cover[s.agent_id as int], x)]
}

/// The sections agree on every overlap: any two sections covering a
/// variable give it the same value.
pub open spec fn sections_agree<T>(cover: Seq<Seq<usize>>, secs: Seq<LocalSection<T>>) -> bool {
    forall|x: usize, p: int, q: int|
        #[trigger] covered_by(cover, secs, x, p) && #[trigger] covered_by(cover, secs, x, q)
            ==> section_value(cover, secs[p], x) == section_value(cover, secs[q], x)
}

/// The best section covering `x` among the first `n`: the first in
/// agent-id order (-1 when none covers it).
pub open spec fn best_cover<T>(cover: Seq<Seq<usize>>, secs: Seq<LocalSection<T>>, x: usize, n: int) -> int
    decreases n,
{
    if n <= 0 {
        -1
    } else {
        let b = best_cover(cover, secs, x, n - 1);
        if covered_by(cover, secs, x, n - 1) && (b < 0 || !precedes(secs, b, n - 1)) {
            n - 1
        } else {
            b
        }
    }
}

/// `best_cover` is the first covering section in agent-id order.
proof fn lemma_best_cover<T>(cover: Seq<Seq<usize>>, secs: Seq<LocalSection<T>>, x: usize, n: int)
    requires
        0 <= n <= secs.len(),
    ensures
        best_cover(cover, secs, x, n) < n,
        best_cover(cover, secs, x, n) >= 0 ==> covered_by(cover, secs, x, best_cover(cover, secs, x, n)),
        best_cover(cover, secs, x, n) < 0 ==> forall|q: int| 0 <= q < n ==> !covered_by(cover, secs, x, q),
        best_cover(cover, secs, x, n) >= 0 ==> forall|q: int| 0 <= q < n && covered_by(cover, secs, x, q) ==> precedes(secs, best_cover(cover, secs, x, n), q),
    decreases n,
{
    if n > 0 {
        lemma_best_cover(cover, secs, x, n - 1);
    }
}

/// A variable that some section covers has an owner.
pub proof fn lemma_owner_exists<T>(cover: Seq<Seq<usize>>, secs: Seq<LocalSection<T>>, x: usize, p: int)
    requires
        covered_by(cover, secs, x, p),
    ensures
        is_owner(cover, secs, x, best_cover(cover, secs, x, secs.len() as int)),
{
    lemma_best_cover(cover, secs, x, secs.len() as int);
}

/// A non-empty sequence has a largest element.
proof fn lemma_seq_max(s: Seq<usize>) -> (m: usize)
    requires
        s.len() > 0,
    ensures
        s.contains(m),
        forall|y: usize| s.contains(y) ==> y <= m,
    decreases s.len(),
{
    if s.len() == 1 {
        assert(s[0] == s[0]);
        assert forall|y: usize| s.contains(y) implies y <= s[0] by {
            let w = choose|w: int| 0 <= w < s.len() && s[w] == y;
        }
        s[0]
    } else {
        let init = s.drop_last();
        let m0 = lemma_seq_max(init);
        let w0 = choose|w: int| 0 <= w < init.len() && init[w] == m0;
        assert(s[w0] == m0);
        let m = if s.last() > m0 { s.last() } else { m0 };
        assert(s[s.len() - 1] == s.last());
        assert forall|y: usize| s.contains(y) implies y <= m by {
            let w = choose|w: int| 0 <= w < s.len() && s[w] == y;
            if w < s.len() - 1 {
                assert(init[w] == y);
                assert(init.contains(y));
            }
        }
        m
    }
}

/// When something is covered, the covered variables have a largest one.
pub proof fn lemma_union_max(cover: Seq<Seq<usize>>, y0: usize) -> (m: usize)
    requires
        union_of(cover).contains(y0),
    ensures
        is_max_of(union_of(cover), m),
    decreases cover.len(),
{
    let init = cover.drop_last();
    let last = cover.last();
    let i0 = choose|i: int| 0 <= i < cover.len() && #[trigger] cover[i].contains(y0);
    let ml: Option<usize> = if last.len() > 0 { Option::Some(lemma_seq_max(last)) } else { Option::None };
    let mi: Option<usize> = if union_of(init).contains(y0) {
        Option::Some(lemma_union_max(init, y0))
    } else if (exists|y: usize| union_of(init).contains(y)) {
        let y1 = choose|y: usize| union_of(init).contains(y);
        Option::Some(lemma_union_max(init, y1))
    } else {
        Option::None
    };
    let m: usize = match (ml, mi) {
        (Option::Some(a), Option::Some(b)) => if a > b { a } else { b },
        (Option::Some(a), Option::None) => a,
        (Option::None, Option::Some(b)) => b,
        (Option::None, Option::None) => {
            assert(cover[i0].contains(y0));
            if i0 < cover.len() - 1 {
                assert(init[i0] == cover[i0]);
                assert(union_of(init).contains(y0));
            } else {
                assert(last.contains(y0));
            }
            y0
        },
    };
    assert forall|y: usize| #[trigger] union_of(cover).contains(y) implies y <= m by {
        let i = choose|i: int| 0 <= i < cover.len() && #[trigger] cover[i].contains(y);
        if i < cover.len() - 1 {
            assert(init[i] == cover[i]);
            assert(union_of(init).contains(y));
        } else {
            assert(last.contains(y));
        }
    }
    assert(union_of(cover).contains(m)) by {
        if ml == Option::Some(m) {
            assert(cover[cover.len() - 1].contains(m));
        } else {
            assert(union_of(init).contains(m));
            let i = choose|i: int| 0 <= i < init.len() && #[trigger] init[i].contains(m);
            assert(cover[i] == init[i]);
        }
    }
    m
}

/// Gluing law: a successful gluing restricts to each section. When `agree`
/// accepts only equal values, every variable a section covers is in range
/// of the glued section and holds that section's value.
pub proof fn law_glued_section_restricts_to_each<T, F: Fn(T, T) -> bool>(
    cover: Seq<Seq<usize>>,
    secs: Seq<LocalSection<T>>,
    fill: T,
    agree: F,
    r: GluingResult<T>,
)
    requires
        forall|a: T, b: T| #[trigger] call_ensures(agree, (a, b), true) ==> a == b,
        glue_outcome(cover, secs, fill, agree, r),
    ensures
        r matches GluingResult::Success(v) ==> forall|x: usize, p: int| #[trigger] covered_by(cover, secs, x, p)
            ==> x < v@.len() && v@[x as int] == section_value(cover, secs[p], x),
{
    if let GluingResult::Success(v) = r {
        assert forall|x: usize, p: int| #[trigger] covered_by(cover, secs, x, p) implies x < v@.len() && v@[x as int] == section_value(cover, secs[p], x) by {
            lemma_covered_below_len(cover, secs, x, p);
            assert(call_ensures(agree, (glued_value(cover, secs, x, fill), section_value(cover, secs[p], x)), true));
        }
    }
}

/// Gluing law: sections that agree on every overlap, each holding a value
/// for every variable of its set, are glued (with H¹ = 0) when `agree`
/// judges by equality.
pub proof fn law_agreeing_sections_glue<T, F: Fn(T, T) -> bool>(
    cover: Seq<Seq<usize>>,
    secs: Seq<LocalSection<T>>,
    fill: T,
    agree: F,
    r: GluingResult<T>,
)
    requires
        forall|a: T, b: T, res: bool| #[trigger] call_ensures(agree, (a, b), res) ==> (res <==> a == b),
        sections_agree(cover, secs),
        forall|x: usize, q: int| #[trigger] covered_by(cover, secs, x, q) ==> holds_value(cover, secs, x, q),
        glue_outcome(cover, secs, fill, agree, r),
    ensures
        r is Success,
{
    if r is Inconsistent {
        let (x, q) = choose|x: usize, q: int| #[trigger] covered_by(cover, secs, x, q) && (!holds_value(cover, secs, x, q)
            || call_ensures(agree, (glued_value(cover, secs, x, fill), section_value(cover, secs[q], x)), false));
        lemma_owner_exists(cover, secs, x, q);
        let o = choose|o: int| is_owner(cover, secs, x, o);
        assert(covered_by(cover, secs, x, o));
        assert(section_value(cover, secs[o], x) == section_value(cover, secs[q], x));
    }
}

} // verus!
