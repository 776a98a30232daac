//! Tests of the library's laws and edge cases on concrete values.

use sheaf_coherence::cochain::{build_d0_matrix, build_d1_matrix, can_build_d1, h1_dimension};
use sheaf_coherence::cover::{position_of, OpenCover, RestrictionMap};
use sheaf_coherence::error::SheafError;
use sheaf_coherence::gluing::{can_glue, glue_sections, GluingResult};
use sheaf_coherence::obstruction::{ObstructionClass, ObstructionType};
use sheaf_coherence::persistence::{
    persistence_from_dimensions, refine_cover, refinement_sequence, CohomologySnapshot,
    PersistencePoint,
};
use sheaf_coherence::section::{LocalSection, SectionFamily};
use sheaf_coherence::sorted::{copy_indices, insert_sorted, merge_common, sort_dedup};

fn three_set_cover() -> OpenCover {
    OpenCover::new(vec![vec![0, 1, 2], vec![1, 2, 3], vec![2, 3, 4]])
}

// ── Sorted index sets ──────────────────────────────────────────

#[test]
fn test_sort_dedup_sorts_and_drops_repeats() {
    assert_eq!(sort_dedup(&vec![5, 1, 5, 3, 1]), vec![1, 3, 5]);
    assert_eq!(sort_dedup(&vec![]), Vec::<usize>::new());
}

#[test]
fn test_insert_sorted_keeps_order_and_uniqueness() {
    let mut r = vec![1, 4, 9];
    insert_sorted(&mut r, 5);
    assert_eq!(r, vec![1, 4, 5, 9]);
    insert_sorted(&mut r, 4);
    assert_eq!(r, vec![1, 4, 5, 9]);
    insert_sorted(&mut r, 0);
    assert_eq!(r, vec![0, 1, 4, 5, 9]);
}

#[test]
fn test_merge_common_is_sorted_intersection() {
    assert_eq!(merge_common(&vec![0, 2, 4, 6], &vec![1, 2, 3, 6, 7]), vec![2, 6]);
    assert_eq!(merge_common(&vec![0, 1], &vec![]), Vec::<usize>::new());
}

#[test]
fn test_copy_indices_copies() {
    assert_eq!(copy_indices(&[3, 1, 2]), vec![3, 1, 2]);
}

#[test]
fn test_position_of_finds_first() {
    assert_eq!(position_of(&[4, 7, 7], 7), Some(1));
    assert_eq!(position_of(&[4, 7], 5), None);
}

// ── Covers ─────────────────────────────────────────────────────

#[test]
fn test_cover_new_of_no_sets_is_one_empty_set() {
    let c = OpenCover::new(vec![]);
    assert_eq!(c.num_sets(), 1);
    assert!(c.sets[0].is_empty());
    assert_eq!(c.universe_size(), 0);
}

#[test]
fn test_cover_new_is_idempotent() {
    let c = OpenCover::new(vec![vec![4, 2, 2], vec![9, 0]]);
    let again = OpenCover::new(c.sets.clone());
    assert_eq!(again.sets, c.sets);
}

#[test]
fn test_trivial_cover_of_zero() {
    let c = OpenCover::trivial(0);
    assert_eq!(c.num_sets(), 1);
    assert!(c.sets[0].is_empty());
}

#[test]
fn test_intersection_is_symmetric() {
    let c = three_set_cover();
    assert_eq!(c.intersection(0, 1), c.intersection(1, 0));
    assert_eq!(c.intersection(0, 2), vec![2]);
}

#[test]
fn test_pairwise_and_nonempty_intersections() {
    let c = OpenCover::new(vec![vec![0, 1], vec![1, 2], vec![5]]);
    let all = c.pairwise_intersections();
    assert_eq!(
        all,
        vec![(0, 1, vec![1]), (0, 2, vec![]), (1, 2, vec![])]
    );
    let nonempty = c.nonempty_intersections();
    assert_eq!(nonempty, vec![(0, 1, vec![1])]);
}

#[test]
fn test_triple_intersections_lists_nonempty_only() {
    let c = OpenCover::new(vec![vec![0, 1, 2], vec![1, 2, 3], vec![2, 3], vec![7]]);
    let tri = c.triple_intersections();
    assert_eq!(tri, vec![(0, 1, 2, vec![2])]);
}

#[test]
fn test_cover_with_gap_is_not_valid() {
    let c = OpenCover::new(vec![vec![0, 1], vec![3]]);
    assert!(!c.is_valid_cover());
    assert_eq!(c.universe(), vec![0, 1, 3]);
    assert_eq!(c.universe_size(), 3);
}

#[test]
fn test_restriction_map_fields() {
    let c = OpenCover::new(vec![vec![2, 5, 8]]);
    let rmap = RestrictionMap::from_cover(&c, 0, &[8, 2]);
    assert_eq!(rmap.from_set, 0);
    assert_eq!(rmap.to_intersection, vec![8, 2]);
    assert_eq!(rmap.mapping, vec![2, 0]);
    assert_eq!(rmap.apply(&['a', 'b', 'c']), vec!['c', 'a']);
}

// ── Sections ───────────────────────────────────────────────────

#[test]
fn test_section_dim_and_restrict_to_whole_set() {
    let c = OpenCover::new(vec![vec![0, 1, 2]]);
    let s = LocalSection::new(0, vec![7, 8, 9]);
    assert_eq!(s.dim(), 3);
    assert_eq!(s.restrict(&c, &[0, 1, 2]), vec![7, 8, 9]);
}

#[test]
fn test_restrictions_of_one_global_section_agree() {
    // Both agents restrict the same global assignment [10, 11, 12, 13].
    let c = OpenCover::new(vec![vec![0, 1, 2], vec![1, 2, 3]]);
    let s0 = LocalSection::new(0, vec![10, 11, 12]);
    let s1 = LocalSection::new(1, vec![11, 12, 13]);
    let inter = c.intersection(0, 1);
    assert_eq!(s0.restrict(&c, &inter), s1.restrict(&c, &inter));
}

#[test]
fn test_section_family_get_len_is_empty() {
    let fam = SectionFamily::new(vec![
        LocalSection::new(2, vec![1]),
        LocalSection::new(0, vec![5]),
        LocalSection::new(2, vec![9]),
    ]);
    assert_eq!(fam.len(), 3);
    assert!(!fam.is_empty());
    assert_eq!(fam.get(2).map(|s| s.data.clone()), Some(vec![1]));
    assert_eq!(fam.get(0).map(|s| s.agent_id), Some(0));
    assert!(fam.get(1).is_none());
    let empty: SectionFamily<i32> = SectionFamily::new(vec![]);
    assert!(empty.is_empty());
    assert_eq!(empty.len(), 0);
}

#[test]
fn test_overlap_restrictions_pairs_values() {
    let c = OpenCover::new(vec![vec![0, 1], vec![1, 2], vec![4]]);
    let fam = SectionFamily::new(vec![
        LocalSection::new(0, vec![1, 2]),
        LocalSection::new(1, vec![3, 4]),
        LocalSection::new(2, vec![5]),
    ]);
    let r = fam.overlap_restrictions(&c);
    assert_eq!(r, vec![(0, 1, vec![2], vec![3])]);
}

#[test]
fn test_overlap_restrictions_skips_agents_without_sections() {
    let c = OpenCover::new(vec![vec![0, 1], vec![1, 2]]);
    let fam = SectionFamily::new(vec![LocalSection::new(0, vec![1, 2])]);
    assert!(fam.overlap_restrictions(&c).is_empty());
}

// ── Coboundary matrices ────────────────────────────────────────

#[test]
fn test_d0_matrix_of_two_overlapping_sets() {
    let c = OpenCover::new(vec![vec![0, 1], vec![1, 2]]);
    let (mat, labels) = build_d0_matrix(&c);
    assert_eq!(labels, vec![(0, 1, 0)]);
    assert_eq!(mat, vec![vec![0, 1, -1, 0]]);
}

#[test]
fn test_d0_matrix_of_disjoint_sets_is_empty() {
    let c = OpenCover::new(vec![vec![0, 1], vec![2, 3]]);
    let (mat, labels) = build_d0_matrix(&c);
    assert!(labels.is_empty());
    assert!(mat.is_empty());
}

#[test]
fn test_single_agent_cover_has_empty_coboundaries() {
    let c = OpenCover::trivial(4);
    let (d0, labels) = build_d0_matrix(&c);
    assert!(d0.is_empty() && labels.is_empty());
    let (d1, rows) = build_d1_matrix(&c);
    assert!(d1.is_empty() && rows.is_empty());
}

#[test]
fn test_d1_matrix_of_three_sets() {
    let c = three_set_cover();
    let (d0, cols) = build_d0_matrix(&c);
    assert_eq!(cols, vec![(0, 1, 0), (0, 1, 1), (0, 2, 0), (1, 2, 0), (1, 2, 1)]);
    assert_eq!(d0.len(), 5);
    assert!(d0.iter().all(|row| row.len() == 9));
    assert!(can_build_d1(&c));
    let (d1, rows) = build_d1_matrix(&c);
    assert_eq!(rows, vec![(0, 1, 2, 0)]);
    assert_eq!(d1, vec![vec![0, 1, -1, 1, 0]]);
}

#[test]
fn test_coboundary_squared_is_zero() {
    for c in [
        three_set_cover(),
        OpenCover::new(vec![vec![0, 1, 2, 3], vec![1, 2, 3], vec![2, 3, 5], vec![3, 5]]),
    ] {
        let (d0, _) = build_d0_matrix(&c);
        let (d1, _) = build_d1_matrix(&c);
        assert!(!d1.is_empty());
        for row in &d1 {
            for col in 0..d0[0].len() {
                let sum: i32 = (0..d0.len()).map(|t| row[t] as i32 * d0[t][col] as i32).sum();
                assert_eq!(sum, 0);
            }
        }
    }
}

// ── Obstructions ───────────────────────────────────────────────

#[test]
fn test_obstruction_is_consistent() {
    let ok = ObstructionClass { h1_dimension: 0, conflicting_agents: vec![] };
    assert!(ok.is_consistent());
    let conflict = ObstructionClass { h1_dimension: 0, conflicting_agents: vec![(0, 1)] };
    assert!(!conflict.is_consistent());
    let h1 = ObstructionClass { h1_dimension: 2, conflicting_agents: vec![] };
    assert!(!h1.is_consistent());
}

#[test]
fn test_obstruction_classify_multi_and_hidden() {
    let multi = ObstructionClass { h1_dimension: 1, conflicting_agents: vec![(0, 1), (1, 2)] };
    assert_eq!(multi.classify(), ObstructionType::MultiAgent(vec![(0, 1), (1, 2)]));
    let hidden = ObstructionClass { h1_dimension: 3, conflicting_agents: vec![] };
    assert_eq!(hidden.classify(), ObstructionType::Hidden(3));
    // A contradicting pair is an obstruction even when H¹ = 0.
    let pair = ObstructionClass { h1_dimension: 0, conflicting_agents: vec![(0, 1)] };
    assert!(!pair.is_consistent());
    assert_eq!(pair.classify(), ObstructionType::Pairwise((0, 1)));
    let pairs = ObstructionClass { h1_dimension: 0, conflicting_agents: vec![(0, 1), (0, 2)] };
    assert_eq!(pairs.classify(), ObstructionType::MultiAgent(vec![(0, 1), (0, 2)]));
}

// ── Gluing ─────────────────────────────────────────────────────

#[test]
fn test_glue_sections_collates_agreeing_sections() {
    let c = OpenCover::new(vec![vec![0, 1, 2], vec![2, 3, 4]]);
    let fam = SectionFamily::new(vec![
        LocalSection::new(0, vec![1, 2, 3]),
        LocalSection::new(1, vec![3, 4, 5]),
    ]);
    assert!(can_glue(&c, &fam));
    let r = glue_sections(&c, &fam, 0, -1, |a: i32, b: i32| a == b);
    assert_eq!(r, GluingResult::Success(vec![1, 2, 3, 4, 5]));
    // The glued section restricts back to each local section.
    if let GluingResult::Success(g) = r {
        for s in &fam.sections {
            let set = &c.sets[s.agent_id];
            let back: Vec<i32> = set.iter().map(|&x| g[x]).collect();
            assert_eq!(back, s.data);
        }
    }
}

#[test]
fn test_glue_sections_lowest_agent_wins_and_gaps_filled() {
    let c = OpenCover::new(vec![vec![0, 1], vec![1, 4]]);
    let fam = SectionFamily::new(vec![
        LocalSection::new(1, vec![11, 40]),
        LocalSection::new(0, vec![10, 11]),
    ]);
    let r = glue_sections(&c, &fam, 0, 0, |a: i32, b: i32| a == b);
    assert_eq!(r, GluingResult::Success(vec![10, 11, 0, 0, 40]));
}

#[test]
fn test_glue_sections_refuses_contradicting_sections() {
    let c = OpenCover::new(vec![vec![0, 1], vec![1, 2]]);
    let fam = SectionFamily::new(vec![
        LocalSection::new(0, vec![1, 2]),
        LocalSection::new(1, vec![9, 3]),
    ]);
    assert_eq!(glue_sections(&c, &fam, 0, 0, |a: i32, b: i32| a == b), GluingResult::Inconsistent);
    // A looser comparison accepts the same family.
    let near = |a: i32, b: i32| (a - b).abs() <= 7;
    assert_eq!(glue_sections(&c, &fam, 0, 0, near), GluingResult::Success(vec![1, 2, 3]));
}

#[test]
fn test_glue_sections_refuses_section_without_value() {
    let c = OpenCover::new(vec![vec![0, 1], vec![1]]);
    let fam = SectionFamily::new(vec![LocalSection::new(0, vec![1, 2]), LocalSection::new(1, vec![])]);
    assert!(can_glue(&c, &fam));
    assert_eq!(glue_sections(&c, &fam, 0, 0, |a: i32, b: i32| a == b), GluingResult::Inconsistent);
}

#[test]
fn test_glue_sections_fails_on_obstruction() {
    let c = OpenCover::new(vec![vec![0, 1]]);
    let fam = SectionFamily::new(vec![LocalSection::new(0, vec![1, 2])]);
    assert_eq!(glue_sections(&c, &fam, 2, 0, |a: i32, b: i32| a == b), GluingResult::Failed { h1_dimension: 2 });
}

#[test]
fn test_glue_sections_empty_universe() {
    let c = OpenCover::new(vec![vec![]]);
    let fam: SectionFamily<i32> = SectionFamily::new(vec![]);
    assert!(can_glue(&c, &fam));
    assert_eq!(glue_sections(&c, &fam, 0, 7, |a: i32, b: i32| a == b), GluingResult::Success(vec![]));
}

#[test]
fn test_can_glue_rejects_short_data_and_unknown_agents() {
    let c = OpenCover::new(vec![vec![0, 1]]);
    let short = SectionFamily::new(vec![LocalSection::new(0, vec![1])]);
    assert!(!can_glue(&c, &short));
    let unknown = SectionFamily::new(vec![LocalSection::new(0, vec![1, 2]), LocalSection::new(3, vec![])]);
    assert!(!can_glue(&c, &unknown));
}

// ── Persistence ────────────────────────────────────────────────

#[test]
fn test_refine_cover_splits_into_chunks() {
    let c = OpenCover::new(vec![vec![0, 1, 2, 3, 4, 5]]);
    assert_eq!(refine_cover(&c, 2).sets, vec![vec![0, 1, 2], vec![3, 4, 5]]);
    assert_eq!(refine_cover(&c, 4).sets, vec![vec![0, 1], vec![2, 3], vec![4, 5]]);
    let singletons: Vec<Vec<usize>> = (0..6).map(|x| vec![x]).collect();
    assert_eq!(refine_cover(&c, 6).sets, singletons);
    assert_eq!(refine_cover(&c, 9).sets, singletons);
    assert_eq!(refine_cover(&c, 1).sets, c.sets);
    assert_eq!(refine_cover(&c, 0).sets, c.sets);
    let seven = OpenCover::new(vec![(0..7).collect()]);
    assert_eq!(refine_cover(&seven, 3).sets, vec![vec![0, 1, 2], vec![3, 4, 5], vec![6]]);
    let with_empty = OpenCover::new(vec![vec![], vec![7, 8, 9]]);
    assert_eq!(refine_cover(&with_empty, 2).sets, vec![vec![], vec![7, 8], vec![9]]);
}

#[test]
fn test_refine_cover_keeps_universe_and_is_finer() {
    let c = OpenCover::new(vec![vec![0, 1, 2, 3, 4], vec![3, 4, 5, 6, 7, 8, 9]]);
    for resolution in 0..12 {
        let r = refine_cover(&c, resolution);
        assert_eq!(r.universe(), c.universe());
        assert!(r.num_sets() >= c.num_sets());
        for set in &r.sets {
            assert!(c.sets.iter().any(|big| set.iter().all(|x| big.contains(x))));
        }
    }
}

#[test]
fn test_refinement_never_gives_fewer_sets() {
    let c = OpenCover::new(vec![vec![0, 1, 2, 3, 4, 5], vec![5, 6]]);
    let seq = refinement_sequence(&c, 9);
    let counts: Vec<usize> = seq.iter().map(|r| r.num_sets()).collect();
    assert_eq!(counts, vec![2, 4, 5, 5, 5, 8, 8, 8, 8]);
    assert!(counts.windows(2).all(|w| w[0] <= w[1]));
}

#[test]
fn test_persistence_from_dimensions_tracks_births_and_deaths() {
    let stages = [(1.0, 2, 0), (2.0, 1, 1), (3.0, 3, 0)];
    let (snaps, diag) = persistence_from_dimensions(&stages, f64::INFINITY);
    assert_eq!(
        snaps,
        vec![
            CohomologySnapshot { resolution: 1.0, h0_dimension: 2, h1_dimension: 0 },
            CohomologySnapshot { resolution: 2.0, h0_dimension: 1, h1_dimension: 1 },
            CohomologySnapshot { resolution: 3.0, h0_dimension: 3, h1_dimension: 0 },
        ]
    );
    let p = |birth: f64, death: f64, degree: usize| PersistencePoint { birth, death, degree };
    assert_eq!(
        diag.points,
        vec![
            p(1.0, 2.0, 0),
            p(2.0, 3.0, 1),
            p(1.0, f64::INFINITY, 0),
            p(3.0, f64::INFINITY, 0),
            p(3.0, f64::INFINITY, 0),
        ]
    );
}

#[test]
fn test_persistence_from_dimensions_single_and_empty() {
    let (snaps, diag) = persistence_from_dimensions(&[(1u32, 2, 0)], u32::MAX);
    assert_eq!(snaps.len(), 1);
    assert_eq!(
        diag.points,
        vec![
            PersistencePoint { birth: 1, death: u32::MAX, degree: 0 },
            PersistencePoint { birth: 1, death: u32::MAX, degree: 0 },
        ]
    );
    let (snaps, diag) = persistence_from_dimensions::<u32>(&[], u32::MAX);
    assert!(snaps.is_empty());
    assert!(diag.points.is_empty());
}

#[test]
fn test_living_features_match_last_dimensions() {
    let stages = [(1, 4, 2), (2, 1, 0), (3, 2, 3)];
    let (_, diag) = persistence_from_dimensions(&stages, 99);
    let alive0 = diag.points.iter().filter(|q| q.death == 99 && q.degree == 0).count();
    let alive1 = diag.points.iter().filter(|q| q.death == 99 && q.degree == 1).count();
    assert_eq!(alive0, 2);
    assert_eq!(alive1, 3);
}

// ── Errors ─────────────────────────────────────────────────────

#[test]
fn test_sheaf_error_variants() {
    let e = SheafError::InvalidEdge(1, 2);
    assert!(matches!(e, SheafError::InvalidEdge(1, 2)));
    let d = SheafError::DimensionMismatch {
        edge: (0, 1),
        expected_rows: 2,
        expected_cols: 3,
        got_rows: 1,
        got_cols: 3,
    };
    assert!(format!("{:?}", d).contains("DimensionMismatch"));
}

// ── Cellular sheaves ───────────────────────────────────────────

use sheaf_coherence::sheaf::{identity_matrix, CellularSheaf, SheafBuilder};

#[test]
fn test_identity_matrix() {
    assert_eq!(identity_matrix(2, 0, 1), vec![vec![1, 0], vec![0, 1]]);
    assert!(identity_matrix(0, 0.0, 1.0).is_empty());
}

#[test]
fn test_constant_sheaf() {
    assert!(matches!(CellularSheaf::<f64>::constant(0, 2), Err(SheafError::EmptySheaf)));
    let s = CellularSheaf::<f64>::constant(3, 2).unwrap();
    assert_eq!(s.graph, vec![Vec::<usize>::new(); 3]);
    assert_eq!(s.stalk_dims, vec![2, 2, 2]);
    assert!(s.restriction_maps.is_empty());
    assert_eq!(s.node_count(), 3);
    assert_eq!(s.total_dim(), 6);
    assert!(s.validate().is_ok());
}

#[test]
fn test_path_sheaf() {
    assert!(matches!(CellularSheaf::path(0, 1, 0.0, 1.0), Err(SheafError::EmptySheaf)));
    let s = CellularSheaf::path(3, 2, 0.0, 1.0).unwrap();
    assert_eq!(s.graph, vec![vec![1], vec![0, 2], vec![1]]);
    let id = vec![vec![1.0, 0.0], vec![0.0, 1.0]];
    assert_eq!(s.restriction_maps, vec![(0, 1, id.clone()), (1, 2, id)]);
    assert!(s.validate().is_ok());
    let single = CellularSheaf::path(1, 4, 0, 1).unwrap();
    assert_eq!(single.graph, vec![Vec::<usize>::new()]);
    assert!(single.restriction_maps.is_empty());
}

#[test]
fn test_cycle_sheaf() {
    assert!(matches!(CellularSheaf::cycle(2, 1, 0, 1), Err(SheafError::EmptySheaf)));
    let s = CellularSheaf::cycle(4, 1, 0, 1).unwrap();
    assert_eq!(s.graph, vec![vec![1, 3], vec![0, 2], vec![1, 3], vec![2, 0]]);
    let edges: Vec<(usize, usize)> = s.restriction_maps.iter().map(|m| (m.0, m.1)).collect();
    assert_eq!(edges, vec![(0, 1), (1, 2), (2, 3), (3, 0)]);
    assert!(s.restriction_maps.iter().all(|m| m.2 == vec![vec![1]]));
    assert!(s.validate().is_ok());
}

#[test]
fn test_complete_sheaf() {
    assert!(matches!(CellularSheaf::complete(0, 1, 0, 1), Err(SheafError::EmptySheaf)));
    let s = CellularSheaf::complete(4, 1, 0, 1).unwrap();
    assert_eq!(s.graph, vec![vec![1, 2, 3], vec![0, 2, 3], vec![0, 1, 3], vec![0, 1, 2]]);
    let edges: Vec<(usize, usize)> = s.restriction_maps.iter().map(|m| (m.0, m.1)).collect();
    assert_eq!(edges, vec![(0, 1), (0, 2), (0, 3), (1, 2), (1, 3), (2, 3)]);
    assert!(s.validate().is_ok());
}

#[test]
fn test_validate_reports_first_misfit() {
    let empty: CellularSheaf<i32> = CellularSheaf { graph: vec![], stalk_dims: vec![], restriction_maps: vec![] };
    assert!(matches!(empty.validate(), Err(SheafError::EmptySheaf)));
    let bad_edge = CellularSheaf {
        graph: vec![vec![], vec![]],
        stalk_dims: vec![1, 1],
        restriction_maps: vec![(0, 1, vec![vec![1]]), (0, 2, vec![vec![1]]), (0, 1, vec![])],
    };
    assert!(matches!(bad_edge.validate(), Err(SheafError::InvalidEdge(0, 2))));
    let bad_dims = CellularSheaf {
        graph: vec![vec![], vec![]],
        stalk_dims: vec![2, 3],
        restriction_maps: vec![(0, 1, vec![vec![1, 0], vec![0, 1]])],
    };
    match bad_dims.validate() {
        Err(SheafError::DimensionMismatch { edge, expected_rows, expected_cols, got_rows, got_cols }) => {
            assert_eq!((edge, expected_rows, expected_cols, got_rows, got_cols), ((0, 1), 3, 2, 2, 2));
        }
        other => panic!("unexpected {:?}", other),
    }
}

#[test]
fn test_builder() {
    assert!(matches!(CellularSheaf::<f64>::builder().build(), Err(SheafError::EmptySheaf)));
    let s = SheafBuilder::default()
        .add_node(1)
        .add_node(2)
        .add_edge(0, 1, vec![vec![0.5], vec![2.0]])
        .add_edge(0, 7, vec![vec![1.0]])
        .build()
        .unwrap();
    assert_eq!(s.graph, vec![vec![1], vec![0]]);
    assert_eq!(s.stalk_dims, vec![1, 2]);
    assert_eq!(s.restriction_maps.len(), 1);
    assert_eq!(s.get_restriction_map(1, 0), Some(&vec![vec![0.5], vec![2.0]]));
    assert_eq!(s.get_restriction_map(0, 1), Some(&vec![vec![0.5], vec![2.0]]));
    assert_eq!(s.get_restriction_map(1, 1), None);
    let mismatched = CellularSheaf::builder().add_node(1).add_node(1).add_edge(0, 1, vec![vec![1, 2]]).build();
    assert!(matches!(mismatched, Err(SheafError::DimensionMismatch { .. })));
}

// ── Agent sheaves ──────────────────────────────────────────────

use sheaf_coherence::agent::{AgentBelief, AgentSheaf};

fn belief(id: &str, v: Vec<i32>) -> AgentBelief<i32> {
    AgentBelief { id: id.to_string(), belief_vector: v, confidence: 1 }
}

#[test]
fn test_agent_sheaf_rejects_empty_and_mismatched() {
    assert!(matches!(AgentSheaf::<i32>::complete(vec![], 0, 1), Err(SheafError::EmptySheaf)));
    let agents = vec![belief("a", vec![1, 2]), belief("b", vec![3, 4]), belief("c", vec![5]), belief("d", vec![])];
    match AgentSheaf::with_edges(agents, &[(0, 1)], 0, 1) {
        Err(SheafError::BeliefDimensionMismatch { agent, expected, got }) => {
            assert_eq!((agent.as_str(), expected, got), ("c", 2, 1));
        }
        other => panic!("unexpected {:?}", other.map(|a| a.len())),
    }
}

#[test]
fn test_agent_sheaf_constructors() {
    let agents = || vec![belief("a", vec![1, 2]), belief("b", vec![3, 4]), belief("c", vec![5, 6])];
    let complete = AgentSheaf::complete(agents(), 0, 1).unwrap();
    assert_eq!(complete.sheaf.graph, vec![vec![1, 2], vec![0, 2], vec![0, 1]]);
    assert_eq!(complete.len(), 3);
    assert!(!complete.is_empty());
    let path = AgentSheaf::path(agents(), 0, 1).unwrap();
    assert_eq!(path.sheaf.graph, vec![vec![1], vec![0, 2], vec![1]]);
    let single = AgentSheaf::path(vec![belief("a", vec![7])], 0, 1).unwrap();
    assert!(single.sheaf.restriction_maps.is_empty());
    assert_eq!(single.sheaf.stalk_dims, vec![1]);
    let edges = AgentSheaf::with_edges(agents(), &[(0, 2), (5, 1), (2, 1)], 0, 1).unwrap();
    assert_eq!(edges.sheaf.graph, vec![vec![2], vec![2], vec![0, 1]]);
    let id = vec![vec![1, 0], vec![0, 1]];
    assert_eq!(edges.sheaf.restriction_maps, vec![(0, 2, id.clone()), (2, 1, id)]);
    assert!(edges.sheaf.validate().is_ok());
    assert_eq!(edges.flat_beliefs(), vec![1, 2, 3, 4, 5, 6]);
}

// ── Counting laws ──────────────────────────────────────────────

#[test]
fn test_pairwise_intersections_count() {
    for n in 1..6usize {
        let sets: Vec<Vec<usize>> = (0..n).map(|i| vec![i]).collect();
        let c = OpenCover::new(sets);
        assert_eq!(c.pairwise_intersections().len(), n * (n - 1) / 2);
    }
}

#[test]
fn test_valid_cover_iff_universe_is_range() {
    for sets in [vec![vec![0, 1], vec![1, 2]], vec![vec![0], vec![2]], vec![vec![]], vec![vec![3, 1], vec![0, 2]]] {
        let c = OpenCover::new(sets);
        let range: Vec<usize> = (0..c.universe_size()).collect();
        assert_eq!(c.is_valid_cover(), c.universe() == range);
    }
}

#[test]
fn test_coboundary_row_counts() {
    let c = OpenCover::new(vec![vec![0, 1, 2, 3], vec![1, 2, 3], vec![2, 3, 5], vec![3, 5]]);
    let (d0, _) = build_d0_matrix(&c);
    let c1: usize = c.nonempty_intersections().iter().map(|(_, _, v)| v.len()).sum();
    assert_eq!(d0.len(), c1);
    let (d1, _) = build_d1_matrix(&c);
    let c2: usize = c.triple_intersections().iter().map(|(_, _, _, v)| v.len()).sum();
    assert_eq!(d1.len(), c2);
    let disjoint = OpenCover::new(vec![vec![0, 1], vec![1, 2], vec![3]]);
    assert!(disjoint.triple_intersections().is_empty());
    assert!(build_d1_matrix(&disjoint).0.is_empty());
}

#[test]
fn test_diagram_points_per_degree_and_stages() {
    let stages = [(1, 2, 0), (2, 1, 1), (3, 3, 0)];
    let (_, diag) = persistence_from_dimensions(&stages, 99);
    // Degree 0: 2 born at the first stage, 2 more at the rise to 3.
    assert_eq!(diag.points.iter().filter(|p| p.degree == 0).count(), 4);
    // Degree 1: 1 born at the rise from 0 to 1.
    assert_eq!(diag.points.iter().filter(|p| p.degree == 1).count(), 1);
    for p in &diag.points {
        assert!(stages.iter().any(|s| s.0 == p.birth));
        assert!(p.death == 99 || p.death > p.birth);
    }
}

#[test]
fn test_block_offsets() {
    let s = CellularSheaf::<i32>::builder().add_node(2).add_node(0).add_node(3).build().unwrap();
    assert_eq!(s.block_offsets(), vec![0, 2, 2]);
}

#[test]
fn test_h1_dimension_from_ranks() {
    assert_eq!(h1_dimension(5, 1, 3), 1);
    assert_eq!(h1_dimension(2, 3, 0), 0);
    assert_eq!(h1_dimension(4, 1, 3), 0);
    assert_eq!(h1_dimension(4, 1, 5), 0);
}
