use cut::cut_tree::{build_cut_tree, CutNode};
use cut::expand::expand_problem;
use cut::model::{
    validate_solution, FreeRect, Piece, PieceType, Placement, PlacementSpec, Problem, ProblemSpec,
    Sheet, Solution, SolutionSpec,
};
use cut::parse_compact::parse_problem;
use cut::slas::decoder::{decode, Gene};

#[test]
fn single_piece_fills_sheet() {
    let spec = parse_problem("10x8F::10x8").unwrap();
    let problem = expand_problem(&spec);
    let genome = vec![Gene { piece_idx: 0, rotate: false, point_selector: 0, inverse: false }];
    let sol = decode(&problem, &genome);
    let trees = build_cut_tree(&problem, &sol.placements).unwrap();
    assert_eq!(trees.len(), 1);
    assert!(matches!(trees[0], CutNode::Piece { .. }));
}

#[test]
fn two_pieces_side_by_side() {
    // Sheet 10×5, two pieces 5×5.
    let spec = parse_problem("10x5F::5x5/2").unwrap();
    let problem = expand_problem(&spec);
    let genome = vec![
        Gene { piece_idx: 0, rotate: false, point_selector: 0, inverse: false },
        Gene { piece_idx: 1, rotate: false, point_selector: 0, inverse: false },
    ];
    let sol = decode(&problem, &genome);
    assert_eq!(sol.sheets_used(), 1);
    let trees = build_cut_tree(&problem, &sol.placements).unwrap();
    assert_eq!(trees.len(), 1);
    assert!(matches!(trees[0], CutNode::VSplit { .. } | CutNode::HSplit { .. }));
}

#[test]
fn windmill_is_not_guillotine_splittable() {
    let piece = |w, h| Piece { name: String::new(), width: w, height: h, can_rotate: false };
    let problem = Problem {
        sheet: Sheet { width: 30, height: 30 },
        pieces: vec![piece(10, 20), piece(20, 10), piece(10, 10), piece(10, 20), piece(20, 10)],
    };
    let placements = vec![
        Placement { sheet_idx: 0, piece_idx: 0, x: 0, y: 0, rotated: false },
        Placement { sheet_idx: 0, piece_idx: 1, x: 10, y: 0, rotated: false },
        Placement { sheet_idx: 0, piece_idx: 2, x: 10, y: 10, rotated: false },
        Placement { sheet_idx: 0, piece_idx: 3, x: 20, y: 10, rotated: false },
        Placement { sheet_idx: 0, piece_idx: 4, x: 0, y: 20, rotated: false },
    ];
    assert!(build_cut_tree(&problem, &placements).is_err());
}

fn leaf_indices(node: &CutNode) -> Vec<usize> {
    match node {
        CutNode::Waste { .. } => vec![],
        CutNode::Piece { piece_idx, .. } => vec![*piece_idx],
        CutNode::HSplit { top: a, bottom: b, .. } | CutNode::VSplit { left: a, right: b, .. } => {
            let mut out = leaf_indices(a);
            out.extend(leaf_indices(b));
            out
        }
    }
}

#[test]
fn cut_tree_frees_each_piece() {
    // Two pieces above each other at the left, one at the right, waste below it.
    let piece = |w, h| Piece { name: String::new(), width: w, height: h, can_rotate: false };
    let problem = Problem {
        sheet: Sheet { width: 10, height: 8 },
        pieces: vec![piece(6, 3), piece(4, 6), piece(6, 5)],
    };
    let at = |piece_idx, x, y| Placement { sheet_idx: 0, piece_idx, x, y, rotated: false };
    let placements = vec![at(0, 0, 0), at(1, 6, 0), at(2, 0, 3)];
    let trees = build_cut_tree(&problem, &placements).unwrap();
    assert_eq!(trees.len(), 1);
    assert_eq!(leaf_indices(&trees[0]), vec![0, 2, 1]);
    match &trees[0] {
        CutNode::VSplit { cut_x, left, right } => {
            assert_eq!(*cut_x, 6);
            assert!(matches!(**left, CutNode::HSplit { cut_y: 3, .. }));
            assert!(matches!(**right, CutNode::HSplit { cut_y: 6, .. }));
        }
        other => panic!("unexpected first cut: {other:?}"),
    }
}

// 2x2 grid of 50x50 pieces, placed at (ox+i*step, oy+j*step) for i,j in 0..2.
fn grid_2x2(ox: u32, oy: u32, step: u32) -> Vec<PlacementSpec> {
    [(ox, oy), (ox + step, oy), (ox, oy + step), (ox + step, oy + step)]
        .map(|(x, y)| PlacementSpec { sheet_idx: 0, ptype_idx: 0, x, y, rotated: false })
        .into()
}

fn spec_50x50x4(sheet_w: u32, sheet_h: u32, kerf: u32, margin: u32) -> ProblemSpec {
    ProblemSpec {
        sheet: Sheet { width: sheet_w, height: sheet_h },
        kerf,
        margin,
        piece_types: vec![PieceType {
            name: String::new(),
            width: 50,
            height: 50,
            count: 4,
            can_rotate: false,
        }],
    }
}

#[test]
fn cut_lengths_calculation() {
    // No margin, no kerf: 100x100 sheet, pieces flush at (0,0)/(50,0)/(0,50)/(50,50).
    let spec = spec_50x50x4(100, 100, 0, 0);
    let sol = SolutionSpec { placements: grid_2x2(0, 0, 50), leftovers: vec![] };
    assert_eq!(sol.cut_lengths(&spec), vec![200]);

    // The working area is 100x100. Inner cuts: 200; margin perimeter: 400.
    let spec = spec_50x50x4(120, 120, 0, 10);
    let sol = SolutionSpec { placements: grid_2x2(10, 10, 50), leftovers: vec![] };
    assert_eq!(sol.cut_lengths(&spec), vec![600]);

    let spec = spec_50x50x4(120, 120, 10, 0);
    let sol = SolutionSpec {
        placements: grid_2x2(0, 0, 60),
        leftovers: vec![
            FreeRect { sheet_idx: 0, x: 120, y: 0, w: 10, h: 60 },
            FreeRect { sheet_idx: 0, x: 0, y: 120, w: 60, h: 10 },
            FreeRect { sheet_idx: 0, x: 120, y: 60, w: 10, h: 60 },
            FreeRect { sheet_idx: 0, x: 60, y: 120, w: 70, h: 10 },
        ],
    };
    assert_eq!(sol.cut_lengths(&spec), vec![445]);
}

fn flat_problem(sheet_w: u32, sheet_h: u32, dims: &[(u32, u32)]) -> Problem {
    Problem {
        sheet: Sheet { width: sheet_w, height: sheet_h },
        pieces: dims
            .iter()
            .map(|&(w, h)| Piece { name: String::new(), width: w, height: h, can_rotate: false })
            .collect(),
    }
}

fn place(piece_idx: usize, x: u32, y: u32) -> Placement {
    Placement { sheet_idx: 0, piece_idx, x, y, rotated: false }
}

#[test]
fn strip_score_grid_beats_scattered() {
    let problem = flat_problem(1000, 1000, &[(400, 400); 4]);
    let grid = Solution {
        placements: vec![place(0, 0, 0), place(1, 400, 0), place(2, 0, 400), place(3, 400, 400)],
        leftovers: vec![],
    };
    let scattered = Solution {
        placements: vec![place(0, 0, 0), place(1, 600, 0), place(2, 0, 600), place(3, 600, 600)],
        leftovers: vec![],
    };
    assert_eq!(grid.strip_structure_score(&problem), 256);
    assert_eq!(scattered.strip_structure_score(&problem), 128);
}

#[test]
fn strip_score_mono_width_mixed_heights() {
    let problem = flat_problem(1000, 1000, &[(400, 300), (400, 500), (400, 200)]);
    let flush = Solution {
        placements: vec![place(0, 0, 0), place(1, 0, 300), place(2, 0, 800)],
        leftovers: vec![],
    };
    let scattered = Solution {
        placements: vec![place(0, 0, 0), place(1, 500, 400), place(2, 50, 750)],
        leftovers: vec![],
    };
    assert_eq!(flush.strip_structure_score(&problem), 148);
    assert_eq!(scattered.strip_structure_score(&problem), 86);
}

#[test]
fn strip_runs_require_equal_width() {
    let problem = flat_problem(1000, 1000, &[(400, 300), (300, 500)]);
    let stacked =
        Solution { placements: vec![place(0, 0, 0), place(1, 0, 300)], leftovers: vec![] };
    assert_eq!(stacked.strip_structure_score(&problem), 59);
}

#[test]
fn full_sheet_placement_yields_zero_drop_score() {
    let problem = flat_problem(10, 10, &[(10, 10)]);
    let sol = Solution { placements: vec![place(0, 0, 0)], leftovers: vec![] };
    assert_eq!(sol.drop_consolidation_score(&problem), 0);
}

#[test]
fn corner_placement_l_shape() {
    let problem = flat_problem(10, 10, &[(4, 4)]);
    let sol = Solution { placements: vec![place(0, 0, 0)], leftovers: vec![] };
    assert_eq!(sol.drop_consolidation_score(&problem), 4_176);
}

#[test]
fn two_opposite_corner_placements() {
    let problem = flat_problem(10, 10, &[(3, 3), (3, 3)]);
    let sol = Solution { placements: vec![place(0, 0, 0), place(1, 7, 7)], leftovers: vec![] };
    assert_eq!(sol.drop_consolidation_score(&problem), 2_482);
}

#[test]
fn drop_score_strictly_increases_when_drops_merge() {
    let problem = flat_problem(6, 2, &[(2, 2)]);
    let fragmented = Solution { placements: vec![place(0, 2, 0)], leftovers: vec![] };
    let merged = Solution { placements: vec![place(0, 0, 0)], leftovers: vec![] };
    let fragmented_score = fragmented.drop_consolidation_score(&problem);
    let merged_score = merged.drop_consolidation_score(&problem);
    assert_eq!(fragmented_score, 32);
    assert_eq!(merged_score, 64);
    assert!(merged_score > fragmented_score);
}

#[test]
fn drop_score_only_last_sheet() {
    let problem = flat_problem(10, 10, &[(4, 4), (10, 10)]);
    let sol = Solution {
        placements: vec![
            Placement { sheet_idx: 0, piece_idx: 0, x: 0, y: 0, rotated: false },
            Placement { sheet_idx: 1, piece_idx: 1, x: 0, y: 0, rotated: false },
        ],
        leftovers: vec![],
    };
    assert_eq!(sol.drop_consolidation_score(&problem), 0);
}

#[test]
fn drop_score_picks_last_sheet_not_emptiest() {
    let problem = flat_problem(10, 10, &[(10, 10), (4, 4)]);
    let sol = Solution {
        placements: vec![
            Placement { sheet_idx: 0, piece_idx: 0, x: 0, y: 0, rotated: false },
            Placement { sheet_idx: 1, piece_idx: 1, x: 0, y: 0, rotated: false },
        ],
        leftovers: vec![],
    };
    assert_eq!(sol.drop_consolidation_score(&problem), 4_176);
}

#[test]
fn objective_is_compared_level_by_level() {
    let problem = flat_problem(10, 10, &[(10, 10), (4, 4), (2, 2)]);
    let two_sheets = Solution {
        placements: vec![place(0, 0, 0), Placement { sheet_idx: 1, ..place(1, 0, 0) }],
        leftovers: vec![],
    };
    let less_area = Solution {
        placements: vec![place(0, 0, 0), Placement { sheet_idx: 1, ..place(2, 0, 0) }],
        leftovers: vec![],
    };
    let one_sheet = Solution { placements: vec![place(0, 0, 0)], leftovers: vec![] };
    let (a, b, c) =
        (two_sheets.eval(&problem), less_area.eval(&problem), one_sheet.eval(&problem));
    assert_eq!((a.sheets_used_int(), a.last_sheet_area), (2, 16));
    assert_eq!((b.sheets_used_int(), b.last_sheet_area), (2, 4));
    assert_eq!((c.sheets_used_int(), c.last_sheet_area), (1, 100));
    assert!(b.is_better(&a) && !a.is_better(&b));
    assert!(c.is_better(&b) && c.is_better(&a));
    assert!(!c.is_better(&c));
    assert_eq!(a.drop_consolidation_score, 4_176);
    assert_eq!(a.secondary(), a.layout_score);
}

#[test]
fn validation_names_what_is_wrong() {
    let problem = flat_problem(10, 10, &[(6, 6), (6, 6)]);
    let apart = Solution {
        placements: vec![place(0, 0, 0), Placement { sheet_idx: 1, ..place(1, 0, 0) }],
        leftovers: vec![],
    };
    assert!(validate_solution(&problem, &apart).is_empty());
    let overlapping =
        Solution { placements: vec![place(0, 0, 0), place(1, 3, 3)], leftovers: vec![] };
    assert!(!validate_solution(&problem, &overlapping).is_empty());
    let outside = Solution { placements: vec![place(0, 5, 0)], leftovers: vec![] };
    assert!(!validate_solution(&problem, &outside).is_empty());
}

#[test]
fn normalizing_twice_changes_nothing() {
    let mut spec = parse_problem("100x100F::30x20,10x50,30x20/2").unwrap();
    let sizes = |spec: &ProblemSpec| {
        spec.piece_types.iter().map(|t| (t.width, t.height, t.count)).collect::<Vec<_>>()
    };
    assert_eq!(sizes(&spec), vec![(30, 20, 3), (10, 50, 1)]);
    spec.normalize();
    assert_eq!(sizes(&spec), vec![(30, 20, 3), (10, 50, 1)]);
}

#[test]
fn expansion_adds_the_saw_cut_and_takes_off_the_margin() {
    let spec = spec_50x50x4(120, 130, 3, 10);
    let problem = expand_problem(&spec);
    assert_eq!(problem.sheet, Sheet { width: 103, height: 113 });
    assert_eq!(problem.pieces.len(), 4);
    assert!(problem.pieces.iter().all(|p| p.width == 53 && p.height == 53));
}
