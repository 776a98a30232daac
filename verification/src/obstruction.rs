//! Classification of local-to-global obstructions.
//!
//! A non-zero H¹ dimension means the fleet's local views cannot be glued
//! into one global section; the conflicting agent pairs say where the local
//! views contradict each other.

use vstd::prelude::*;

verus! {

/// Why local sections cannot be glued into a global one.
#[derive(Debug, Clone, PartialEq)]
pub struct ObstructionClass {
    /// Dimension of H¹ (number of independent obstructions).
    pub h1_dimension: usize,
    /// Agent pairs whose values contradict on their overlap.
    pub conflicting_agents: Vec<(usize, usize)>,
}

/// The kind of an obstruction.
#[derive(Debug, PartialEq)]
pub enum ObstructionType {
    /// No obstruction: the fleet is consistent.
    NoObstruction,
    /// A single pair of agents contradicts.
    Pairwise((usize, usize)),
    /// Several pairs contradict.
    MultiAgent(Vec<(usize, usize)>),
    /// H¹ is non-zero but no pair conflicts (a higher-order obstruction).
    Hidden(usize),
}

impl ObstructionClass {
    /// Whether the fleet is globally consistent: H¹ = 0 and no conflicts.
    pub fn is_consistent(&self) -> (r: bool)
        ensures
            r == (self.h1_dimension == 0 && self.conflicting_agents@.len() == 0),
    {
        self.h1_dimension == 0 && self.conflicting_agents.len() == 0
    }

    /// Classify the obstruction: none exactly when the fleet is consistent;
    /// otherwise by the conflicting pairs (one pair, or several), and
    /// `Hidden` when H¹ ≠ 0 with no pair in conflict.
    pub fn classify(&self) -> (r: ObstructionType)
        ensures
            (r == ObstructionType::NoObstruction) <==> (self.h1_dimension == 0 && self.conflicting_agents@.len() == 0),
            self.conflicting_agents@.len() == 1 ==> r == ObstructionType::Pairwise(self.conflicting_agents@[0]),
            self.conflicting_agents@.len() > 1 ==> (r matches ObstructionType::MultiAgent(v) && v@ == self.conflicting_agents@),
            self.h1_dimension > 0 && self.conflicting_agents@.len() == 0 ==> r == ObstructionType::Hidden(self.h1_dimension),
    {
        if self.conflicting_agents.len() == 1 {
            ObstructionType::Pairwise(self.conflicting_agents[0])
        } else if self.conflicting_agents.len() > 1 {
            ObstructionType::MultiAgent(copy_pairs(&self.conflicting_agents))
        } else if self.h1_dimension > 0 {
            ObstructionType::Hidden(self.h1_dimension)
        } else {
            ObstructionType::NoObstruction
        }
    }
}

/// A fresh vector holding the same agent pairs.
fn copy_pairs(v: &Vec<(usize, usize)>) -> (r: Vec<(usize, usize)>)
    ensures
        r@ == v@,
{
    let mut r: Vec<(usize, usize)> = Vec::new();
    let mut i: usize = 0;
    while i < v.len()
        invariant
            i <= v@.len(),
            r@ == v@.take(i as int),
        decreases v@.len() - i,
    {
        r.push(v[i]);
        i += 1;
        assert(r@ =~= v@.take(i as int));
    }
    assert(v@.take(v@.len() as int) =~= v@);
    r
}

} // verus!
