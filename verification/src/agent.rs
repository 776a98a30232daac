//! A group of agents as a cellular sheaf: each agent is a node whose stalk
//! holds its belief vector, joined to other agents by identity restriction
//! maps.

use vstd::prelude::*;
use crate::error::SheafError;
use crate::sheaf::{
    CellularSheaf, SheafBuilder, identity_matrix, identity_rows, rows_of, maps_of, path_lists,
    complete_lists, edge_maps_below, with_edge, map_fits, validation, lemma_first_misfit_ok,
    lemma_identity_fits,
};

verus! {

/// An agent's belief: a vector in its stalk, with a confidence.
#[derive(Debug, Clone)]
pub struct AgentBelief<T> {
    /// Agent identifier.
    pub id: String,
    /// Belief vector (lives in the stalk space).
    pub belief_vector: Vec<T>,
    /// Confidence in this belief.
    pub confidence: T,
}

/// A group of agents wrapped as a cellular sheaf.
#[derive(Debug, Clone)]
pub struct AgentSheaf<T> {
    /// The agents and their beliefs.
    pub agents: Vec<AgentBelief<T>>,
    /// The underlying cellular sheaf.
    pub sheaf: CellularSheaf<T>,
}

/// The beliefs checked in order against dimension `d`: the error for the
/// first one of another length.
pub open spec fn belief_dims_check<T>(agents: Seq<AgentBelief<T>>, d: usize) -> Result<(), SheafError>
    decreases agents.len(),
{
    if agents.len() == 0 {
        Ok(())
    } else if agents[0].belief_vector@.len() != d {
        Err(SheafError::BeliefDimensionMismatch {
            agent: agents[0].id,
            expected: d,
            got: agents[0].belief_vector@.len() as usize,
        })
    } else {
        belief_dims_check(agents.drop_first(), d)
    }
}

/// What the constructors check first: `EmptySheaf` without agents, else
/// every belief must have the first one's length, which is the stalk
/// dimension.
pub open spec fn belief_check<T>(agents: Seq<AgentBelief<T>>) -> Result<usize, SheafError> {
    if agents.len() == 0 {
        Err(SheafError::EmptySheaf)
    } else {
        let d = agents[0].belief_vector@.len() as usize;
        match belief_dims_check(agents, d) {
            Ok(_) => Ok(d),
            Err(e) => Err(e),
        }
    }
}

/// Adjacency lists after adding, in order, each edge of `edges` whose two
/// nodes exist.
pub open spec fn added_edges(adj: Seq<Seq<usize>>, edges: Seq<(usize, usize)>) -> Seq<Seq<usize>>
    decreases edges.len(),
{
    if edges.len() == 0 {
        adj
    } else {
        let a = added_edges(adj, edges.drop_last());
        let e = edges.last();
        if e.0 < a.len() && e.1 < a.len() {
            with_edge(a, e.0, e.1)
        } else {
            a
        }
    }
}

/// The restriction maps for the edges of `edges` whose nodes are below `n`,
/// in order, each with matrix `m`.
pub open spec fn edge_map_list<T>(edges: Seq<(usize, usize)>, n: nat, m: Seq<Seq<T>>) -> Seq<(usize, usize, Seq<Seq<T>>)>
    decreases edges.len(),
{
    if edges.len() == 0 {
        Seq::empty()
    } else {
        let rest = edge_map_list(edges.drop_last(), n, m);
        let e = edges.last();
        if e.0 < n && e.1 < n {
            rest.push((e.0, e.1, m))
        } else {
            rest
        }
    }
}

/// All belief vectors, one after another.
pub open spec fn flattened<T>(agents: Seq<AgentBelief<T>>) -> Seq<T>
    decreases agents.len(),
{
    if agents.len() == 0 {
        Seq::empty()
    } else {
        flattened(agents.drop_last()) + agents.last().belief_vector@
    }
}

/// Adding an edge keeps the number of adjacency lists.
proof fn lemma_added_edges_len(adj: Seq<Seq<usize>>, edges: Seq<(usize, usize)>)
    ensures
        added_edges(adj, edges).len() == adj.len(),
    decreases edges.len(),
{
    if edges.len() > 0 {
        lemma_added_edges_len(adj, edges.drop_last());
    }
}

/// Check the beliefs: `EmptySheaf` without agents, else the first belief
/// whose length differs from the first one's; the stalk dimension otherwise.
fn check_beliefs<T>(agents: &Vec<AgentBelief<T>>) -> (r: Result<usize, SheafError>)
    ensures
        r == belief_check(agents@),
{
    if agents.len() == 0 {
        return Err(SheafError::EmptySheaf);
    }
    let ghost all = agents@;
    let d = agents[0].belief_vector.len();
    let mut t: usize = 0;
    assert(all.skip(0) =~= all);
    while t < agents.len()
        invariant
            all == agents@,
            all.len() > 0,
            d == all[0].belief_vector@.len(),
            t <= all.len(),
            belief_dims_check(all, d) == belief_dims_check(all.skip(t as int), d),
        decreases all.len() - t,
    {
        proof {
            let rest = all.skip(t as int);
            assert(rest[0] == all[t as int]);
            assert(rest.drop_first() =~= all.skip(t + 1));
        }
        let got = agents[t].belief_vector.len();
        if got != d {
            return Err(SheafError::BeliefDimensionMismatch { agent: agents[t].id.clone(), expected: d, got });
        }
        t += 1;
    }
    assert(all.skip(t as int) =~= Seq::<AgentBelief<T>>::empty());
    Ok(d)
}

impl<T> AgentSheaf<T> {
    /// Agents connected as a complete graph with identity restriction maps.
    /// Fails with `EmptySheaf` without agents, and with
    /// `BeliefDimensionMismatch` for the first belief whose length differs
    /// from the first one's.
    pub fn complete(agents: Vec<AgentBelief<T>>, zero: T, one: T) -> (r: Result<Self, SheafError>)
        where T: Copy,
        ensures
            belief_check(agents@) matches Err(e) ==> r == Err::<Self, SheafError>(e),
            belief_check(agents@) matches Ok(d) ==> (r matches Ok(a) && a.agents@ == agents@
                && a.sheaf.adjacency() == Seq::new(agents@.len(), |v: int| complete_lists(agents@.len() as int, v))
                && a.sheaf.stalk_dims@ == Seq::new(agents@.len(), |v: int| d)
                && edge_maps_below(a.sheaf.maps(), agents@.len() as int, agents@.len() as int, agents@.len() as int, identity_rows(d as nat, zero, one))),
    {
        match check_beliefs(&agents) {
            Err(e) => Err(e),
            Ok(d) => {
                let n = agents.len();
                match CellularSheaf::complete(n, d, zero, one) {
                    Ok(sheaf) => Ok(AgentSheaf { agents, sheaf }),
                    Err(e) => Err(e),
                }
            },
        }
    }

    /// Agents connected as a path `0 — 1 — … — (n-1)` with identity
    /// restriction maps (a single agent has no edges). Fails as `complete`
    /// does.
    pub fn path(agents: Vec<AgentBelief<T>>, zero: T, one: T) -> (r: Result<Self, SheafError>)
        where T: Copy,
        ensures
            belief_check(agents@) matches Err(e) ==> r == Err::<Self, SheafError>(e),
            belief_check(agents@) matches Ok(d) ==> (r matches Ok(a) && a.agents@ == agents@
                && a.sheaf.adjacency() == Seq::new(agents@.len(), |v: int| path_lists(agents@.len() - 1, v))
                && a.sheaf.stalk_dims@ == Seq::new(agents@.len(), |v: int| d)
                && a.sheaf.maps() == Seq::new((agents@.len() - 1) as nat, |t: int| (t as usize, (t + 1) as usize, identity_rows(d as nat, zero, one)))),
    {
        match check_beliefs(&agents) {
            Err(e) => Err(e),
            Ok(d) => {
                let n = agents.len();
                let built = if n == 1 {
                    CellularSheaf::constant(1, d)
                } else {
                    CellularSheaf::path(n, d, zero, one)
                };
                match built {
                    Ok(sheaf) => {
                        proof {
                            if n == 1 {
                                assert(sheaf.adjacency() =~= Seq::new(1, |v: int| path_lists(0, v)));
                                assert(sheaf.maps() =~= Seq::new(0, |t: int| (t as usize, (t + 1) as usize, identity_rows(d as nat, zero, one))));
                            }
                        }
                        Ok(AgentSheaf { agents, sheaf })
                    },
                    Err(e) => Err(e),
                }
            },
        }
    }

    /// Agents joined by the given edges, each with an identity restriction
    /// map; edges naming a missing agent are skipped. Fails as `complete`
    /// does.
    pub fn with_edges(agents: Vec<AgentBelief<T>>, edges: &[(usize, usize)], zero: T, one: T) -> (r: Result<Self, SheafError>)
        where T: Copy,
        ensures
            belief_check(agents@) matches Err(e) ==> r == Err::<Self, SheafError>(e),
            belief_check(agents@) matches Ok(d) ==> (r matches Ok(a) && a.agents@ == agents@
                && a.sheaf.adjacency() == added_edges(Seq::new(agents@.len(), |v: int| Seq::<usize>::empty()), edges@)
                && a.sheaf.stalk_dims@ == Seq::new(agents@.len(), |v: int| d)
                && a.sheaf.maps() == edge_map_list(edges@, agents@.len(), identity_rows(d as nat, zero, one))),
    {
        let d = match check_beliefs(&agents) {
            Err(e) => return Err(e),
            Ok(d) => d,
        };
        let ghost id = identity_rows(d as nat, zero, one);
        let n = agents.len();
        let mut builder: SheafBuilder<T> = SheafBuilder::default();
        let mut i: usize = 0;
        while i < n
            invariant
                i <= n,
                builder.adjacency() == Seq::new(i as nat, |v: int| Seq::<usize>::empty()),
                builder.dims() == Seq::new(i as nat, |v: int| d),
                builder.maps().len() == 0,
            decreases n - i,
        {
            builder = builder.add_node(d);
            i += 1;
            assert(builder.adjacency() =~= Seq::new(i as nat, |v: int| Seq::<usize>::empty()));
            assert(builder.dims() =~= Seq::new(i as nat, |v: int| d));
        }
        let ghost empty_adj = Seq::new(n as nat, |v: int| Seq::<usize>::empty());
        let mut t: usize = 0;
        assert(edges@.take(0) =~= Seq::<(usize, usize)>::empty());
        assert(maps_of(builder.maps()) =~= Seq::<(usize, usize, Seq<Seq<T>>)>::empty());
        while t < edges.len()
            invariant
                t <= edges@.len(),
                id == identity_rows(d as nat, zero, one),
                builder.adjacency() == added_edges(empty_adj, edges@.take(t as int)),
                builder.adjacency().len() == n,
                builder.dims() == Seq::new(n as nat, |v: int| d),
                maps_of(builder.maps()) == edge_map_list(edges@.take(t as int), n as nat, id),
                forall|u: int| 0 <= u < builder.maps().len() ==> map_fits(builder.dims(), #[trigger] builder.maps()[u]),
            decreases edges@.len() - t,
        {
            let (a, b) = edges[t];
            let ghost before = builder.maps();
            let identity = identity_matrix(d, zero, one);
            proof {
                lemma_identity_fits(identity, d as nat, zero, one);
                assert(edges@.take(t + 1).drop_last() =~= edges@.take(t as int));
                assert(edges@.take(t + 1).last() == (a, b));
            }
            builder = builder.add_edge(a, b, identity);
            proof {
                if a < n && b < n {
                    assert(maps_of(builder.maps()) =~= maps_of(before).push((a, b, rows_of(identity))));
                    assert forall|u: int| 0 <= u < builder.maps().len() implies map_fits(builder.dims(), #[trigger] builder.maps()[u]) by {
                        if u < before.len() {
                            assert(builder.maps()[u] == before[u]);
                        }
                    }
                }
                lemma_added_edges_len(empty_adj, edges@.take(t + 1));
            }
            t += 1;
        }
        proof {
            assert(edges@.take(t as int) =~= edges@);
            lemma_first_misfit_ok(builder.dims(), builder.maps());
            assert(validation(builder.dims(), builder.maps()) is Ok);
        }
        match builder.build() {
            Ok(sheaf) => Ok(AgentSheaf { agents, sheaf }),
            Err(e) => Err(e),
        }
    }

    /// All belief vectors, one after another.
    pub fn flat_beliefs(&self) -> (r: Vec<T>)
        where T: Copy,
        ensures
            r@ == flattened(self.agents@),
    {
        let mut out: Vec<T> = Vec::new();
        let mut i: usize = 0;
        assert(self.agents@.take(0) =~= Seq::<AgentBelief<T>>::empty());
        while i < self.agents.len()
            invariant
                i <= self.agents@.len(),
                out@ == flattened(self.agents@.take(i as int)),
            decreases self.agents@.len() - i,
        {
            let v = &self.agents[i].belief_vector;
            let ghost start = out@;
            let mut k: usize = 0;
            while k < v.len()
                invariant
                    k <= v@.len(),
                    out@ == start + v@.take(k as int),
                decreases v@.len() - k,
            {
                out.push(v[k]);
                k += 1;
                assert(out@ =~= start + v@.take(k as int));
            }
            proof {
                let next = self.agents@.take(i + 1);
                assert(next.drop_last() =~= self.agents@.take(i as int));
                assert(v@.take(v@.len() as int) =~= v@);
                assert(out@ =~= flattened(next));
            }
            i += 1;
        }
        assert(self.agents@.take(i as int) =~= self.agents@);
        out
    }

    /// Number of agents.
    pub fn len(&self) -> (r: usize)
        ensures
            r == self.agents@.len(),
    {
        self.agents.len()
    }

    /// True if there are no agents.
    pub fn is_empty(&self) -> (r: bool)
        ensures
            r == (self.agents@.len() == 0),
    {
        self.agents.len() == 0
    }
}

} // verus!
