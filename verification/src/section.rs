//! Local sections: one agent's values over the variables of its open set.
//!
//! Values are of any copyable type `T`; the floating-point comparisons that
//! decide agreement within a tolerance are made by the caller on the
//! restricted vectors these functions hand back.

use vstd::prelude::*;
use crate::cover::{OpenCover, RestrictionMap, first_index, is_pair_list, pair_before, listed, lemma_first_index_of_member};
use crate::sorted::common_merge;

verus! {

/// One agent's values: `data[k]` is the value of variable `cover.sets[agent_id][k]`.
#[derive(Debug, Clone, PartialEq)]
pub struct LocalSection<T> {
    pub agent_id: usize,
    pub data: Vec<T>,
}

/// The values that `section` holds for the variables of `intersection`:
/// for each variable, the value at its first position in the agent's set.
pub open spec fn restricted<T>(
    cover: Seq<Seq<usize>>,
    section: LocalSection<T>,
    intersection: Seq<usize>,
) -> Seq<T> {
    intersection.map_values(
        |x: usize| section.data@[first_index(cover[section.agent_id as int], x)],
    )
}

/// `section` can be restricted to `intersection`: its agent has a set in the
/// cover, every variable of the intersection is in that set, and its first
/// position there has a value.
pub open spec fn can_restrict<T>(
    cover: Seq<Seq<usize>>,
    section: LocalSection<T>,
    intersection: Seq<usize>,
) -> bool {
    &&& section.agent_id < cover.len()
    &&& forall|k: int|
        0 <= k < intersection.len() ==> #[trigger] cover[section.agent_id as int].contains(
            intersection[k],
        )
    &&& forall|k: int|
        0 <= k < intersection.len() ==> first_index(
            cover[section.agent_id as int],
            #[trigger] intersection[k],
        ) < section.data@.len()
}

/// `section` holds, at every position of its agent's set, the value that the
/// global assignment `g` gives that variable.
pub open spec fn is_restriction_of<T>(cover: Seq<Seq<usize>>, section: LocalSection<T>, g: Seq<T>) -> bool {
    forall|m: int|
        0 <= m < section.data@.len() && m < cover[section.agent_id as int].len() ==> section.data@[m]
            == g[#[trigger] cover[section.agent_id as int][m] as int]
}

/// Restriction composes: a section taken from a global assignment `g`,
/// restricted to part of its set, gives the values of `g` there.
pub proof fn law_restriction_composes<T>(cover: Seq<Seq<usize>>, section: LocalSection<T>, g: Seq<T>, inter: Seq<usize>)
    requires
        can_restrict(cover, section, inter),
        is_restriction_of(cover, section, g),
    ensures
        restricted(cover, section, inter) == inter.map_values(|x: usize| g[x as int]),
{
    let set = cover[section.agent_id as int];
    assert forall|k: int| 0 <= k < inter.len() implies #[trigger] restricted(cover, section, inter)[k] == g[inter[k] as int] by {
        assert(set.contains(inter[k]));
        lemma_first_index_of_member(set, inter[k]);
        let m = first_index(set, inter[k]);
        assert(set[m] == inter[k]);
    }
    assert(restricted(cover, section, inter) =~= inter.map_values(|x: usize| g[x as int]));
}

/// Two sections taken from one global assignment agree on the intersection
/// of their agents' sets.
pub proof fn law_restrictions_of_one_assignment_agree<T>(cover: Seq<Seq<usize>>, si: LocalSection<T>, sj: LocalSection<T>, g: Seq<T>)
    requires
        can_restrict(cover, si, common_merge(cover[si.agent_id as int], cover[sj.agent_id as int])),
        can_restrict(cover, sj, common_merge(cover[si.agent_id as int], cover[sj.agent_id as int])),
        is_restriction_of(cover, si, g),
        is_restriction_of(cover, sj, g),
    ensures
        restricted(cover, si, common_merge(cover[si.agent_id as int], cover[sj.agent_id as int]))
            == restricted(cover, sj, common_merge(cover[si.agent_id as int], cover[sj.agent_id as int])),
{
    let inter = common_merge(cover[si.agent_id as int], cover[sj.agent_id as int]);
    law_restriction_composes(cover, si, g, inter);
    law_restriction_composes(cover, sj, g, inter);
}

impl<T> LocalSection<T> {
    /// Create a local section.
    pub fn new(agent_id: usize, data: Vec<T>) -> (r: Self)
        ensures
            r.agent_id == agent_id,
            r.data == data,
    {
        LocalSection { agent_id, data }
    }

    /// Number of values held.
    pub fn dim(&self) -> (r: usize)
        ensures
            r == self.data@.len(),
    {
        self.data.len()
    }
}

impl<T: Copy> LocalSection<T> {
    /// Restrict this section to `intersection`: the values of the variables
    /// of the intersection, in its order.
    pub fn restrict(&self, cover: &OpenCover, intersection: &[usize]) -> (r: Vec<T>)
        requires
            can_restrict(cover@, *self, intersection@),
        ensures
            r@ == restricted(cover@, *self, intersection@),
    {
        let rmap = RestrictionMap::from_cover(cover, self.agent_id, intersection);
        let r = rmap.apply(self.data.as_slice());
        assert(r@ =~= restricted(cover@, *self, intersection@));
        r
    }
}

/// A collection of local sections.
#[derive(Debug, Clone, PartialEq)]
pub struct SectionFamily<T> {
    pub sections: Vec<LocalSection<T>>,
}

/// Position of the first section of agent `agent_id` in `sections`.
pub open spec fn section_index<T>(sections: Seq<LocalSection<T>>, agent_id: usize) -> int {
    choose|p: int|
        0 <= p < sections.len() && sections[p].agent_id == agent_id && forall|q: int|
            0 <= q < p ==> sections[q].agent_id != agent_id
}

/// Some section belongs to agent `agent_id`.
pub open spec fn has_section<T>(sections: Seq<LocalSection<T>>, agent_id: usize) -> bool {
    exists|p: int| 0 <= p < sections.len() && sections[p].agent_id == agent_id
}

/// The list of overlaps of `cover` between agents that both have a section in
/// `sections`: entries `(i, j, values of i, values of j)` over the non-empty
/// intersection of sets `i < j`, in lexicographic order of `(i, j)`.
pub open spec fn is_overlap_list<T>(
    cover: Seq<Seq<usize>>,
    sections: Seq<LocalSection<T>>,
    r: Seq<(usize, usize, Vec<T>, Vec<T>)>,
) -> bool {
    &&& forall|t: int|
        0 <= t < r.len() ==> {
            let (i, j, vi, vj) = #[trigger] r[t];
            let inter = common_merge(cover[i as int], cover[j as int]);
            &&& i < j < cover.len()
            &&& inter.len() > 0
            &&& has_section(sections, i)
            &&& has_section(sections, j)
            &&& vi@ == restricted(cover, sections[section_index(sections, i)], inter)
            &&& vj@ == restricted(cover, sections[section_index(sections, j)], inter)
        }
    &&& forall|s: int, t: int|
        0 <= s < t < r.len() ==> pair_before((r[s].0, r[s].1), (r[t].0, r[t].1))
    &&& forall|i: usize, j: usize|
        i < j < cover.len() && common_merge(cover[i as int], cover[j as int]).len() > 0
            && has_section(sections, i) && has_section(sections, j) ==> #[trigger] lists_overlap(
            r,
            i,
            j,
        )
}

/// Some entry of `r` is labelled with the pair `(i, j)`.
pub open spec fn lists_overlap<T>(r: Seq<(usize, usize, Vec<T>, Vec<T>)>, i: usize, j: usize) -> bool {
    exists|t: int| 0 <= t < r.len() && r[t].0 == i && r[t].1 == j
}

/// Every overlap between two agents that have sections can be restricted to.
pub open spec fn overlaps_restrictable<T>(
    cover: Seq<Seq<usize>>,
    sections: Seq<LocalSection<T>>,
) -> bool {
    forall|i: usize, j: usize|
        i < j < cover.len() && #[trigger] has_section(sections, i) && #[trigger] has_section(
            sections,
            j,
        ) ==> {
            let inter = common_merge(cover[i as int], cover[j as int]);
            &&& can_restrict(cover, sections[section_index(sections, i)], inter)
            &&& can_restrict(cover, sections[section_index(sections, j)], inter)
        }
}

impl<T> SectionFamily<T> {
    /// Create a family from its sections.
    pub fn new(sections: Vec<LocalSection<T>>) -> (r: Self)
        ensures
            r.sections == sections,
    {
        SectionFamily { sections }
    }

    /// The first section of agent `agent_id`, if there is one.
    pub fn get(&self, agent_id: usize) -> (r: Option<&LocalSection<T>>)
        ensures
            r is Some <==> has_section(self.sections@, agent_id),
            r matches Some(s) ==> *s == self.sections@[section_index(self.sections@, agent_id)],
    {
        let mut p: usize = 0;
        while p < self.sections.len()
            invariant
                p <= self.sections@.len(),
                forall|q: int| 0 <= q < p ==> self.sections@[q].agent_id != agent_id,
            decreases self.sections@.len() - p,
        {
            if self.sections[p].agent_id == agent_id {
                proof {
                    let f = section_index(self.sections@, agent_id);
                    assert(0 <= f < self.sections@.len() && self.sections@[f].agent_id == agent_id);
                    if f < p {
                    } else if f > p {
                    }
                }
                return Some(&self.sections[p]);
            }
            p += 1;
        }
        None
    }

    /// Number of sections.
    pub fn len(&self) -> (r: usize)
        ensures
            r == self.sections@.len(),
    {
        self.sections.len()
    }

    /// Whether the family has no sections.
    pub fn is_empty(&self) -> (r: bool)
        ensures
            r == (self.sections@.len() == 0),
    {
        self.sections.len() == 0
    }
}

impl<T: Copy> SectionFamily<T> {
    /// For every non-empty intersection of sets `i < j` whose agents both
    /// have a section, the two sections restricted to it: the values that
    /// the pairwise differences compare.
    #[verifier::rlimit(40)]
    pub fn overlap_restrictions(&self, cover: &OpenCover) -> (r: Vec<(usize, usize, Vec<T>, Vec<T>)>)
        requires
            overlaps_restrictable(cover@, self.sections@),
        ensures
            is_overlap_list(cover@, self.sections@, r@),
    {
        let inters = cover.nonempty_intersections();
        let mut out: Vec<(usize, usize, Vec<T>, Vec<T>)> = Vec::new();
        let mut t: usize = 0;
        while t < inters.len()
            invariant
                t <= inters@.len(),
                is_pair_list(cover@, inters@, false),
                overlaps_restrictable(cover@, self.sections@),
                forall|u: int|
                    0 <= u < out@.len() ==> {
                        let (i, j, vi, vj) = #[trigger] out@[u];
                        let inter = common_merge(cover@[i as int], cover@[j as int]);
                        &&& i < j < cover@.len()
                        &&& inter.len() > 0
                        &&& has_section(self.sections@, i)
                        &&& has_section(self.sections@, j)
                        &&& vi@ == restricted(
                            cover@,
                            self.sections@[section_index(self.sections@, i)],
                            inter,
                        )
                        &&& vj@ == restricted(
                            cover@,
                            self.sections@[section_index(self.sections@, j)],
                            inter,
                        )
                    },
                forall|s: int, u: int|
                    0 <= s < u < out@.len() ==> pair_before(
                        (out@[s].0, out@[s].1),
                        (out@[u].0, out@[u].1),
                    ),
                forall|u: int, w: int|
                    #![trigger out@[u], inters@[w]]
                    0 <= u < out@.len() && t <= w < inters@.len() ==> pair_before(
                        (out@[u].0, out@[u].1),
                        (inters@[w].0, inters@[w].1),
                    ),
                forall|w: int|
                    0 <= w < t && has_section(self.sections@, #[trigger] inters@[w].0)
                        && has_section(self.sections@, inters@[w].1) ==> lists_overlap(
                        out@,
                        inters@[w].0,
                        inters@[w].1,
                    ),
            decreases inters@.len() - t,
        {
            let i = inters[t].0;
            let j = inters[t].1;
            let inter = &inters[t].2;
            let si = self.get(i);
            let sj = self.get(j);
            let ghost old_out = out@;
            match (si, sj) {
                (Some(si), Some(sj)) => {
                    let ri = si.restrict(cover, inter.as_slice());
                    let rj = sj.restrict(cover, inter.as_slice());
                    out.push((i, j, ri, rj));
                    proof {
                        assert forall|u: int, w: int|
                            #![trigger out@[u], inters@[w]]
                            0 <= u < out@.len() && t + 1 <= w < inters@.len() implies pair_before(
                                (out@[u].0, out@[u].1),
                                (inters@[w].0, inters@[w].1),
                            ) by {
                            if u < old_out.len() {
                                assert(out@[u] == old_out[u]);
                            } else {
                                assert(pair_before((inters@[t as int].0, inters@[t as int].1), (inters@[w].0, inters@[w].1)));
                            }
                        }
                        assert forall|w: int|
                            0 <= w < t + 1 && has_section(self.sections@, #[trigger] inters@[w].0)
                                && has_section(self.sections@, inters@[w].1) implies lists_overlap(
                                out@,
                                inters@[w].0,
                                inters@[w].1,
                            ) by {
                            if w == t {
                                assert(out@[out@.len() - 1].0 == i);
                            } else {
                                let q = choose|q: int|
                                    0 <= q < old_out.len() && old_out[q].0 == inters@[w].0
                                        && old_out[q].1 == inters@[w].1;
                                assert(out@[q] == old_out[q]);
                            }
                        }
                    }
                },
                _ => {
                    proof {
                        assert forall|u: int, w: int|
                            #![trigger out@[u], inters@[w]]
                            0 <= u < out@.len() && t + 1 <= w < inters@.len() implies pair_before(
                                (out@[u].0, out@[u].1),
                                (inters@[w].0, inters@[w].1),
                            ) by {
                        }
                    }
                },
            }
            t += 1;
        }
        proof {
            assert forall|i: usize, j: usize|
                i < j < cover@.len() && common_merge(cover@[i as int], cover@[j as int]).len() > 0
                    && has_section(self.sections@, i) && has_section(self.sections@, j)
                    implies #[trigger] lists_overlap(out@, i, j) by {
                assert(listed(false, common_merge(cover@[i as int], cover@[j as int])));
                assert(crate::cover::lists_pair(inters@, i, j));
                let w = choose|w: int| 0 <= w < inters@.len() && inters@[w].0 == i && inters@[w].1 == j;
                assert(has_section(self.sections@, inters@[w].0));
            }
        }
        out
    }
}

} // verus!
