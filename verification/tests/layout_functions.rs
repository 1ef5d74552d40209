use cut::expand::expand_problem;
use cut::glas::dim_index::{DimIndex, TypeMatch};
use cut::glas::glf_preplace::glf_preplace;
use cut::gpf::groups::build_gpf;
use cut::gpf::{eval_f, eval_f_inv, h_cut, min_fn, v_cut, StepFn};
use cut::group_fill::best_group;
use cut::model::{validate_solution, Piece, Problem, ProblemSpec, Solution};
use cut::parse::parse_spec;

#[test]
fn eval_f_basic() {
    let f: StepFn = vec![(2, 3), (4, 2)];
    assert_eq!(eval_f(&f, 1), None);
    assert_eq!(eval_f(&f, 2), Some(3));
    assert_eq!(eval_f(&f, 3), Some(3));
    assert_eq!(eval_f(&f, 4), Some(2));
    assert_eq!(eval_f(&f, 10), Some(2));
}

#[test]
fn eval_f_inv_basic() {
    let f: StepFn = vec![(8, 6), (10, 3)];
    assert_eq!(eval_f_inv(&f, 2), None);
    assert_eq!(eval_f_inv(&f, 3), Some(10));
    assert_eq!(eval_f_inv(&f, 5), Some(10));
    assert_eq!(eval_f_inv(&f, 6), Some(8));
    assert_eq!(eval_f_inv(&f, 7), Some(8));
}

#[test]
fn h_cut_basic() {
    // f({C}) = [(8,3)], f({A}) = [(2,3)]
    let fc: StepFn = vec![(8, 3)];
    let fa: StepFn = vec![(2, 3)];
    let fh = h_cut(&fc, &fa);
    assert_eq!(fh, vec![(8, 6)]);
}

#[test]
fn v_cut_basic() {
    // f({C}) = [(8,3)], f({A}) = [(2,3)]
    let fc: StepFn = vec![(8, 3)];
    let fa: StepFn = vec![(2, 3)];
    let fv = v_cut(&fc, &fa);
    assert_eq!(fv, vec![(10, 3)]);
}

#[test]
fn combined_ca() {
    let fc: StepFn = vec![(8, 3)];
    let fa: StepFn = vec![(2, 3)];
    let fh = h_cut(&fc, &fa);
    let fv = v_cut(&fc, &fa);
    let combined = min_fn(&fh, &fv);
    assert_eq!(combined, vec![(8, 6), (10, 3)]);
}

#[test]
fn tutorial_example() {
    // All fixed, no kerf.
    let p = parse_spec("10x8F:0:2x3/4,4x3,8x3,5x2/2").unwrap();
    let table = build_gpf(&p);
    // Full set at width=10 must equal 8
    assert_eq!(table.eval_full_set(10), Some(8));
    // Base cases
    assert_eq!(table.eval_subset(&vec![1, 0, 0, 0], 2), Some(3)); // {A} at x=2
    assert_eq!(table.eval_subset(&vec![0, 1, 0, 0], 4), Some(3)); // {B} at x=4
    assert_eq!(table.eval_subset(&vec![0, 0, 1, 0], 8), Some(3)); // {C} at x=8
    assert_eq!(table.eval_subset(&vec![0, 0, 0, 1], 5), Some(2)); // {D} at x=5
}

#[test]
fn reconstruction_uses_the_height_that_the_table_says() {
    let p = parse_spec("10x8F:0:2x3/4,4x3,8x3,5x2/2").unwrap();
    let table = build_gpf(&p);
    let sol = table.reconstruct(10).unwrap();
    assert_eq!(sol.placements.len(), 8);
    let bottom = sol
        .placements
        .iter()
        .map(|pl| pl.y + p.piece_types[pl.ptype_idx].height)
        .max()
        .unwrap();
    assert_eq!(bottom, 8);
    assert!(table.reconstruct(4).is_none());
}

#[test]
fn subsets_are_numbered_without_gaps() {
    let p = parse_spec("10x8F:0:2x3/4,4x3,8x3,5x2/2").unwrap();
    let table = build_gpf(&p);
    assert_eq!(table.total_subsets(), 5 * 2 * 2 * 3);
    for i in 0..table.total_subsets() {
        let counts = table.decode_index(i);
        assert_eq!(table.flat_index(&counts), i);
    }
}

#[test]
fn table_as_text() {
    let p = parse_spec("10x8F:0:2x3,4x2/2").unwrap();
    let text = build_gpf(&p).display_table(4);
    let lines = text.split('\n').collect::<Vec<_>>();
    assert_eq!(lines[0], format!("{:<20}  {:<40}  f(4)", "Subset", "Step function"));
    assert_eq!(lines[1], "-".repeat(70));
    assert_eq!(lines.len(), 2 + 5);
    assert_eq!(lines[2], format!("{:<20}  {:<40}  3", "{A}", "[(2,3)]"));
    assert_eq!(lines[3], format!("{:<20}  {:<40}  2", "{B}", "[(4,2)]"));
    assert_eq!(lines[4], format!("{:<20}  {:<40}  5", "{A,B}", "[(4,5), (6,3)]"));
    assert_eq!(lines[5], format!("{:<20}  {:<40}  4", "{2·B}", "[(4,4), (8,2)]"));
    assert!(lines[6].starts_with("{A,2·B}"));
}

/// Helper: kerf=0 so expanded dims == spec dims.
fn build(problem_str: &str) -> (ProblemSpec, Problem, DimIndex) {
    let spec = parse_spec(problem_str).expect("parse");
    let problem = expand_problem(&spec);
    let idx = DimIndex::build(&spec, &problem);
    (spec, problem, idx)
}

#[test]
fn non_rotatable_indexed_once() {
    let (_, _, idx) = build("1000x1000F:0:300x200/2f");
    assert_eq!(idx.by_width(300), &[TypeMatch { type_idx: 0, rotated: false }]);
    assert_eq!(idx.by_height(200), &[TypeMatch { type_idx: 0, rotated: false }]);
    // Reversed dims not indexed.
    assert!(idx.by_width(200).is_empty());
    assert!(idx.by_height(300).is_empty());
}

#[test]
fn rotatable_non_square_indexed_both_orientations() {
    // Normal form swaps to 200×300 (width ≤ height).
    let (_, _, idx) = build("1000x1000R:0:300x200/2r");
    assert_eq!(idx.by_width(200), &[TypeMatch { type_idx: 0, rotated: false }]);
    assert_eq!(idx.by_height(300), &[TypeMatch { type_idx: 0, rotated: false }]);
    assert_eq!(idx.by_width(300), &[TypeMatch { type_idx: 0, rotated: true }]);
    assert_eq!(idx.by_height(200), &[TypeMatch { type_idx: 0, rotated: true }]);
}

#[test]
fn square_rotatable_indexed_once() {
    // w==h so rotation is redundant; index once.
    let (_, _, idx) = build("1000x1000R:0:200x200/3r");
    assert_eq!(idx.by_width(200), &[TypeMatch { type_idx: 0, rotated: false }]);
    assert_eq!(idx.by_height(200), &[TypeMatch { type_idx: 0, rotated: false }]);
    assert_eq!(idx.by_width(200).len(), 1);
}

#[test]
fn multiple_types_same_dimension() {
    // Two types with width=100 (different heights).
    let (_, _, idx) = build("1000x1000F:0:100x200/1f,100x300/1f");
    let matches = idx.by_width(100);
    assert_eq!(matches.len(), 2);
    assert!(matches.contains(&TypeMatch { type_idx: 0, rotated: false }));
    assert!(matches.contains(&TypeMatch { type_idx: 1, rotated: false }));
}

#[test]
fn unknown_dimension_returns_empty() {
    let (_, _, idx) = build("1000x1000F:0:300x200/1f");
    assert!(idx.by_width(999).is_empty());
    assert!(idx.by_height(999).is_empty());
}

#[test]
fn kerf_padded_dimensions_are_indexed() {
    // kerf=10 → expanded piece is (300+10)×(200+10) = 310×210.
    let (_, _, idx) = build("1000x1000F:10:300x200/1f");
    assert_eq!(idx.by_width(310), &[TypeMatch { type_idx: 0, rotated: false }]);
    assert_eq!(idx.by_height(210), &[TypeMatch { type_idx: 0, rotated: false }]);
    assert!(idx.by_width(300).is_empty()); // raw (non-expanded) width not present
}

#[test]
fn glf_steps_zero_is_identity() {
    let spec = parse_spec("100x100F:0:40x40/4,30x30/3").unwrap();
    let r = glf_preplace(&spec, 0);
    assert_eq!(r.n_sheets, 0);
    assert!(r.placements.is_empty());
    assert_eq!(r.remaining_spec.piece_types.len(), spec.piece_types.len());
    let total: usize = spec.piece_types.iter().map(|p| p.count as usize).sum();
    assert_eq!(r.remaining_to_original.len(), total);
}

#[test]
fn glf_preplace_basic() {
    // One step should fit some large pieces on sheet 0.
    let spec = parse_spec("100x100F:0:50x50/2,30x30/3").unwrap();
    let r = glf_preplace(&spec, 1);
    // At minimum, the two 50x50 pieces should fit in one sheet (50+50=100 wide, height=50).
    assert!(r.n_sheets >= 1);
    assert!(!r.placements.is_empty());
    let total_orig: usize = spec.piece_types.iter().map(|p| p.count as usize).sum();
    let total_placed = r.placements.len();
    let total_remaining: usize =
        r.remaining_spec.piece_types.iter().map(|p| p.count as usize).sum();
    assert_eq!(total_placed + total_remaining, total_orig);
    assert_eq!(r.remaining_to_original.len(), total_remaining);
}

#[test]
fn glf_preplace_consumes_all_when_steps_large() {
    let spec = parse_spec("200x200F:0:100x100/4").unwrap();
    let r = glf_preplace(&spec, 10);
    // All 4 pieces fit in one 200x200 sheet (2x2 grid).
    assert_eq!(r.n_sheets, 1);
    assert_eq!(r.placements.len(), 4);
    assert_eq!(
        r.remaining_spec.piece_types.iter().map(|p| p.count as usize).sum::<usize>(),
        0
    );
}

#[test]
fn glf_preplace_skip_when_no_fit() {
    let spec = parse_spec("10x10F:0:5x5/1").unwrap();
    let r = glf_preplace(&spec, 3);
    // The 5x5 piece fits in 10x10. Expect 1 sheet.
    assert_eq!(r.n_sheets, 1);
}

fn piece(w: u32, h: u32, can_rotate: bool) -> Piece {
    Piece { name: String::new(), width: w, height: h, can_rotate }
}

fn total_len(pieces: &[Piece], group: &[(usize, bool)], vertical: bool) -> u32 {
    group
        .iter()
        .map(|&(i, rotated)| {
            let p = &pieces[i];
            let (w, h) = if rotated { (p.height, p.width) } else { (p.width, p.height) };
            if vertical {
                h
            } else {
                w
            }
        })
        .sum()
}

#[test]
fn exact_fill_beats_single_larger_piece() {
    // Heights {30, 70, 60} with target 100: 30+70 fills exactly, 60+30=90 does not.
    let pieces = vec![piece(50, 30, false), piece(50, 70, false), piece(50, 60, false)];
    let group = best_group(&pieces, &[0, 1, 2], 50, 100, true);
    let mut idxs: Vec<usize> = group.iter().map(|&(i, _)| i).collect();
    idxs.sort_unstable();
    assert_eq!(idxs, vec![0, 1]);
    assert_eq!(total_len(&pieces, &group, true), 100);
}

#[test]
fn rotation_branch_is_used() {
    // 80x40 does not fit a 40-wide column upright, but fits rotated and
    // contributes its width (80) to the column height.
    let pieces = vec![piece(80, 40, true)];
    let group = best_group(&pieces, &[0], 40, 80, true);
    assert_eq!(group, vec![(0, true)]);
}

#[test]
fn cross_cap_filters_wide_pieces() {
    // 60-wide piece cannot enter a 50-wide column (rotation disabled).
    let pieces = vec![piece(60, 40, false), piece(50, 40, false)];
    let group = best_group(&pieces, &[0, 1], 50, 100, true);
    assert_eq!(group, vec![(1, false)]);
}

#[test]
fn horizontal_axis_swaps_roles() {
    // Row of height 50: contributions are widths, cap is on heights.
    let pieces = vec![piece(30, 50, false), piece(70, 50, false), piece(40, 60, false)];
    let group = best_group(&pieces, &[0, 1, 2], 50, 100, false);
    let mut idxs: Vec<usize> = group.iter().map(|&(i, _)| i).collect();
    idxs.sort_unstable();
    assert_eq!(idxs, vec![0, 1], "60-tall piece must be filtered, 30+70 fill the row");
    assert_eq!(total_len(&pieces, &group, false), 100);
}

#[test]
fn piece_is_used_at_most_once() {
    // Single 50-long piece, target 100: the sum 100 must not be reached by
    // chaining the same piece twice.
    let pieces = vec![piece(50, 50, false)];
    let group = best_group(&pieces, &[0], 50, 100, true);
    assert_eq!(group.len(), 1);
    assert_eq!(total_len(&pieces, &group, true), 50);
}

#[test]
fn empty_inputs_give_empty_group() {
    let pieces = vec![piece(50, 50, false)];
    assert!(best_group(&pieces, &[], 50, 100, true).is_empty());
    assert!(best_group(&pieces, &[0], 50, 0, true).is_empty());
    assert!(best_group(&pieces, &[0], 40, 100, true).is_empty());
}

#[test]
fn deterministic_for_same_input() {
    let pieces = vec![piece(50, 30, true), piece(40, 25, true), piece(35, 35, false)];
    let a = best_group(&pieces, &[0, 1, 2], 50, 90, true);
    let b = best_group(&pieces, &[0, 1, 2], 50, 90, true);
    assert_eq!(a, b);
}

#[test]
fn what_is_preplaced_can_be_cut() {
    let spec = parse_spec("100x100F:0:50x50/2,30x30/3,20x60/4").unwrap();
    let r = glf_preplace(&spec, 2);
    let problem = expand_problem(&spec);
    let sol = Solution { placements: r.placements, leftovers: vec![] };
    let errors = validate_solution(&problem, &sol);
    assert!(errors.is_empty(), "{errors:?}");
    assert_eq!(sol.sheets_used(), r.n_sheets);
    assert_eq!(r.used_heights.len(), r.n_sheets);
    let mut ids = sol.placements.iter().map(|p| p.piece_idx).collect::<Vec<_>>();
    ids.extend(r.remaining_to_original);
    ids.sort_unstable();
    assert_eq!(ids, (0..problem.pieces.len()).collect::<Vec<_>>());
}
