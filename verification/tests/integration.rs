//! Integration tests for sheaf_coherence.

use sheaf_coherence::cover::{OpenCover, RestrictionMap};
use sheaf_coherence::section::LocalSection;
use sheaf_coherence::obstruction::{ObstructionClass, ObstructionType};
use sheaf_coherence::persistence::{persistence_from_dimensions, refine_cover, refinement_sequence};
use sheaf_coherence::section::SectionFamily;
use sheaf_coherence::gluing::{glue_sections, GluingResult};

/// Sections are compared exactly; these tests glue with H¹ = 0.
fn same(a: f64, b: f64) -> bool {
    a == b
}

// ── Cover tests ────────────────────────────────────────────────

#[test]
fn test_cover_trivial_single_set() {
    let c = OpenCover::trivial(3);
    assert_eq!(c.num_sets(), 1);
    assert_eq!(c.sets[0], vec![0, 1, 2]);
    assert_eq!(c.universe_size(), 3);
}

#[test]
fn test_cover_pairwise_intersection() {
    let c = OpenCover::new(vec![vec![0, 1, 2], vec![1, 2, 3]]);
    let inter = c.intersection(0, 1);
    assert_eq!(inter, vec![1, 2]);
}

#[test]
fn test_cover_disjoint_sets() {
    let c = OpenCover::new(vec![vec![0, 1], vec![2, 3]]);
    let inter = c.intersection(0, 1);
    assert!(inter.is_empty());
}

#[test]
fn test_cover_triple_intersection() {
    let c = OpenCover::new(vec![vec![0, 1, 2], vec![1, 2, 3], vec![1, 2, 4]]);
    let tri = c.triple_intersection(0, 1, 2);
    assert_eq!(tri, vec![1, 2]);
}

#[test]
fn test_cover_is_valid() {
    let c = OpenCover::new(vec![vec![0, 1], vec![1, 2]]);
    assert!(c.is_valid_cover());
}

#[test]
fn test_cover_universe() {
    let c = OpenCover::new(vec![vec![2, 0], vec![1, 3]]);
    let u = c.universe();
    assert_eq!(u, vec![0, 1, 2, 3]);
}

// ── Restriction map tests ──────────────────────────────────────

#[test]
fn test_restriction_map_apply() {
    let c = OpenCover::new(vec![vec![0, 1, 2], vec![1, 2, 3]]);
    let rmap = RestrictionMap::from_cover(&c, 0, &[1, 2]);
    assert_eq!(rmap.mapping, vec![1, 2]); // indices 1,2 in set 0
    let data = vec![10.0, 20.0, 30.0];
    let restricted = rmap.apply(&data);
    assert_eq!(restricted, vec![20.0, 30.0]);
}

#[test]
fn test_restriction_maps_compose() {
    // Restrict from set 0 to intersection(0,1), then verify against
    // restriction from set 1 to same intersection
    let c = OpenCover::new(vec![vec![0, 1, 2, 3], vec![2, 3, 4]]);
    let inter = c.intersection(0, 1); // [2, 3]

    let r0 = RestrictionMap::from_cover(&c, 0, &inter);
    let r1 = RestrictionMap::from_cover(&c, 1, &inter);

    let data0 = vec![1.0, 2.0, 3.0, 4.0];
    let data1 = vec![3.0, 4.0, 5.0];

    let res0 = r0.apply(&data0);
    let res1 = r1.apply(&data1);
    // Both should give values at indices 2, 3
    assert_eq!(res0, vec![3.0, 4.0]);
    assert_eq!(res1, vec![3.0, 4.0]);
}

// ── Section tests ──────────────────────────────────────────────

#[test]
fn test_section_restrict() {
    let c = OpenCover::new(vec![vec![0, 1, 2], vec![1, 2, 3]]);
    let s = LocalSection::new(0, vec![1.0, 2.0, 3.0]);
    let restricted = s.restrict(&c, &[1, 2]);
    assert_eq!(restricted, vec![2.0, 3.0]);
}

// ── Cochain complex tests ──────────────────────────────────────

#[test]
fn test_cech_complex_dimensionality() {
    // Verify C⁰, C¹ dimensions match cover structure
    let c = OpenCover::new(vec![vec![0, 1, 2], vec![1, 2, 3], vec![2, 3, 4]]);
    let c0_dim: usize = c.sets.iter().map(|s| s.len()).sum();
    assert_eq!(c0_dim, 9); // 3+3+3

    let c1_dim: usize = c.nonempty_intersections()
        .iter()
        .map(|(_, _, v)| v.len())
        .sum();
    // (0,1)∩ = [1,2] → 2, (0,2)∩ = [2] → 1, (1,2)∩ = [2,3] → 2
    assert_eq!(c1_dim, 5);

    let c2_dim: usize = c.triple_intersections()
        .iter()
        .map(|(_, _, _, v)| v.len())
        .sum();
    // (0,1,2)∩ = [2] → 1
    assert_eq!(c2_dim, 1);
}

// ── Obstruction tests ──────────────────────────────────────────

#[test]
fn test_obstruction_classify_none() {
    let obs = ObstructionClass {
        h1_dimension: 0,
        conflicting_agents: vec![],
    };
    assert_eq!(obs.classify(), ObstructionType::NoObstruction);
}

#[test]
fn test_obstruction_classify_pairwise() {
    let obs = ObstructionClass {
        h1_dimension: 1,
        conflicting_agents: vec![(0, 2)],
    };
    match obs.classify() {
        ObstructionType::Pairwise((0, 2)) => {}
        other => panic!("Expected Pairwise(0,2), got {:?}", other),
    }
}

// ── Persistence tests ──────────────────────────────────────────

#[test]
fn test_persistence_refine_cover() {
    let c = OpenCover::new(vec![vec![0, 1, 2, 3, 4, 5]]);
    let refined = refine_cover(&c, 2);
    assert!(refined.num_sets() >= c.num_sets());
}

#[test]
fn test_persistence_refinement_sequence() {
    let c = OpenCover::new(vec![vec![0, 1, 2, 3, 4, 5]]);
    let seq = refinement_sequence(&c, 3);
    assert_eq!(seq.len(), 3);
    assert_eq!(seq[0].num_sets(), 1); // resolution 1: unchanged
    assert!(seq[2].num_sets() >= seq[1].num_sets()); // finer = more sets
}

#[test]
fn test_cover_new_deduplicates_and_sorts() {
    let c = OpenCover::new(vec![vec![3, 1, 2, 1]]);
    assert_eq!(c.sets[0], vec![1, 2, 3]);
}

// ── Gluing tests (H¹ = 0) ──────────────────────────────────────

#[test]
fn test_gluing_succeeds_when_h1_zero() {
    let c = OpenCover::new(vec![vec![0, 1], vec![1, 2]]);
    let fam = SectionFamily::new(vec![
        LocalSection::new(0, vec![1.0, 2.0]),
        LocalSection::new(1, vec![2.0, 3.0]),
    ]);
    match glue_sections(&c, &fam, 0, 0.0, same) {
        GluingResult::Success(global) => {
            assert_eq!(global.len(), 3);
            assert_eq!(global[0], 1.0);
            assert_eq!(global[1], 2.0);
            assert_eq!(global[2], 3.0);
        }
        _ => panic!("Expected gluing to succeed"),
    }
}

#[test]
fn test_gluing_single_agent() {
    let c = OpenCover::trivial(3);
    let fam = SectionFamily::new(vec![LocalSection::new(0, vec![5.0, 6.0, 7.0])]);
    match glue_sections(&c, &fam, 0, 0.0, same) {
        GluingResult::Success(global) => assert_eq!(global, vec![5.0, 6.0, 7.0]),
        _ => panic!("Expected success"),
    }
}

#[test]
fn test_gluing_disjoint_agents() {
    let c = OpenCover::new(vec![vec![0, 1], vec![2, 3]]);
    let fam = SectionFamily::new(vec![
        LocalSection::new(0, vec![1.0, 2.0]),
        LocalSection::new(1, vec![3.0, 4.0]),
    ]);
    match glue_sections(&c, &fam, 0, 0.0, same) {
        GluingResult::Success(global) => assert_eq!(global, vec![1.0, 2.0, 3.0, 4.0]),
        _ => panic!("Expected success"),
    }
}

#[test]
fn test_consistent_fleet_has_global_section() {
    let c = OpenCover::new(vec![vec![0, 1, 2], vec![2, 3, 4], vec![4, 5]]);
    let fam = SectionFamily::new(vec![
        LocalSection::new(0, vec![1.0, 2.0, 3.0]),
        LocalSection::new(1, vec![3.0, 4.0, 5.0]),
        LocalSection::new(2, vec![5.0, 6.0]),
    ]);
    match glue_sections(&c, &fam, 0, 0.0, same) {
        GluingResult::Success(global) => {
            assert_eq!(global.len(), 6);
            assert_eq!(global, vec![1.0, 2.0, 3.0, 4.0, 5.0, 6.0]);
        }
        _ => panic!("Expected success"),
    }
}

// ── Persistence diagram tests (dimensions given per stage) ────

#[test]
fn test_persistence_diagram_single_stage() {
    // The trivial cover of 2 variables: H⁰ = 2, H¹ = 0.
    let stages = vec![(1.0, 2, 0)];
    let (snapshots, diag) = persistence_from_dimensions(&stages, f64::INFINITY);
    assert_eq!(snapshots.len(), 1);
    assert_eq!(snapshots[0].h0_dimension, 2);
    assert_eq!(snapshots[0].h1_dimension, 0);
    assert!(diag.points.iter().any(|p| p.degree == 0 && p.death == f64::INFINITY));
}

#[test]
fn test_persistence_diagram_multiple_stages() {
    // The trivial cover of 3 variables, then [[0, 1], [1, 2]]: H⁰ = 3 at
    // both stages, H¹ = 0.
    let stages = vec![(1.0, 3, 0), (2.0, 3, 0)];
    let (snapshots, diag) = persistence_from_dimensions(&stages, f64::INFINITY);
    assert_eq!(snapshots.len(), 2);
    assert!(!diag.points.is_empty());
}
