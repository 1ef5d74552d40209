use cut::cut_tree::build_cut_tree;
use cut::exact::bpc::{
    area_bound, child_patterns, node_has_fractional_lambda, pick_fractional_type_pair, round_down_lb,
    round_gap, singleton_pattern, BpcConfig, BpcNode, BpcStatus, Pattern, Tree, TreeStep,
};
use cut::exact::oracle::GlfOracle;
use cut::exact::pricing::{BranchConstraints, PriceOutcome, Pricer, PricingLimits, UNIT};
use cut::exact::rounds::{Bounds, BoundsDrain, CgOutcome, CgStep, Opening, Rounds};
use cut::expand::expand_problem;
use cut::model::{Piece, Placement, Problem, Sheet, Solution};
use cut::parse_compact::parse_problem;

fn piece(w: u32, h: u32, rot: bool) -> Piece {
    Piece { name: String::new(), width: w, height: h, can_rotate: rot }
}

/// A number in parts of `UNIT`.
fn parts(v: f64) -> u64 {
    (v * UNIT as f64).round() as u64
}

fn pricer(pieces: &Vec<Piece>, w: u32, h: u32) -> (Pricer, GlfOracle) {
    let limits = PricingLimits::default();
    let oracle = GlfOracle::new(w, h, limits.max_cells, limits.max_splits);
    (Pricer::new(pieces, w, h, limits), oracle)
}

fn duals(mu: &[f64]) -> Vec<u64> {
    mu.iter().map(|&v| parts(v)).collect()
}

fn grid() -> Vec<Piece> {
    vec![piece(6, 4, false), piece(4, 4, false), piece(6, 3, false), piece(4, 3, false)]
}

/// The pattern is consistent and can be cut.
fn check_pattern(pieces: &Vec<Piece>, w: u32, h: u32, pat: &Pattern, mu: &[f64]) {
    assert_eq!(pat.items.len(), pat.placements.len());
    let profit: f64 = pat.items.iter().map(|&i| mu[i]).sum();
    assert!(profit > 1.0, "pattern profit {profit} must exceed 1");
    let mut seen = vec![false; pieces.len()];
    for &i in &pat.items {
        assert!(!seen[i], "duplicate item {i}");
        seen[i] = true;
    }
    for pl in &pat.placements {
        let p = &pieces[pl.piece_idx];
        let (pw, ph) = if pl.rotated { (p.height, p.width) } else { (p.width, p.height) };
        assert!(pl.x + pw <= w && pl.y + ph <= h, "placement out of sheet bounds");
    }
    let problem = Problem {
        sheet: Sheet { width: w, height: h },
        pieces: pieces.iter().map(|p| piece(p.width, p.height, p.can_rotate)).collect(),
    };
    assert!(build_cut_tree(&problem, &pat.placements).is_ok(), "pattern must be cuttable");
}

#[test]
fn column_found_for_two_copies_same_type() {
    let pieces = vec![piece(5, 5, false), piece(5, 5, false)];
    let mu = [0.9, 0.9];
    let (mut pr, mut oracle) = pricer(&pieces, 10, 5);
    match pr.price(&duals(&mu), &BranchConstraints::default(), &mut oracle) {
        PriceOutcome::Column(p) => {
            assert_eq!(p.items.len(), 2);
            check_pattern(&pieces, 10, 5, &p, &mu);
        }
        _ => panic!("expected a column"),
    }
}

#[test]
fn chain_lays_pieces_out_in_turn() {
    // By density the pieces go in as 4x6, 6x6, 10x4: the second beside the first, the third below.
    let pieces = vec![piece(10, 4, false), piece(4, 6, false), piece(6, 6, false)];
    let mu = [0.3, 0.4, 0.5];
    // The chain needs no search, so it works with no budget at all.
    let limits = PricingLimits { max_nodes: 0, max_cells: 0, max_splits: 0 };
    let mut pr = Pricer::new(&pieces, 10, 10, limits);
    let mut oracle = GlfOracle::new(10, 10, 0, 0);
    match pr.price(&duals(&mu), &BranchConstraints::default(), &mut oracle) {
        PriceOutcome::Column(p) => {
            assert_eq!(p.items, vec![0, 2, 1]);
            let spots: Vec<(u32, u32, bool)> =
                p.placements.iter().map(|pl| (pl.x, pl.y, pl.rotated)).collect();
            assert_eq!(spots, vec![(0, 6, false), (4, 0, false), (0, 0, false)]);
        }
        _ => panic!("expected a column"),
    }
}

#[test]
fn none_exists_when_duals_low() {
    let pieces = vec![piece(5, 5, false), piece(5, 5, false)];
    let (mut pr, mut oracle) = pricer(&pieces, 10, 5);
    assert!(matches!(
        pr.price(&duals(&[0.4, 0.4]), &BranchConstraints::default(), &mut oracle),
        PriceOutcome::NoneExists
    ));
}

#[test]
fn singleton_column_when_dual_exceeds_one() {
    let pieces = vec![piece(5, 5, false)];
    let mu = [1.5];
    let (mut pr, mut oracle) = pricer(&pieces, 10, 10);
    match pr.price(&duals(&mu), &BranchConstraints::default(), &mut oracle) {
        PriceOutcome::Column(p) => {
            assert_eq!(p.items, vec![0]);
            check_pattern(&pieces, 10, 10, &p, &mu);
        }
        _ => panic!("expected a singleton column"),
    }
}

// 2x2 grid of unequal pieces exactly tiling 10x7.
#[test]
fn grid_pattern_beyond_chain_heuristic() {
    let pieces = grid();
    let mu = [0.3; 4];
    let (mut pr, mut oracle) = pricer(&pieces, 10, 7);
    match pr.price(&duals(&mu), &BranchConstraints::default(), &mut oracle) {
        PriceOutcome::Column(p) => {
            assert_eq!(p.items.len(), 4, "all four grid pieces must be in the pattern");
            check_pattern(&pieces, 10, 7, &p, &mu);
        }
        _ => panic!("expected the full grid column"),
    }
}

// On a 10x6 sheet no triple with the first piece fits, and the others are worth 0.9.
#[test]
fn none_exists_requires_search() {
    let pieces = grid();
    let (mut pr, mut oracle) = pricer(&pieces, 10, 6);
    assert!(matches!(
        pr.price(&duals(&[0.55, 0.3, 0.3, 0.3]), &BranchConstraints::default(), &mut oracle),
        PriceOutcome::NoneExists
    ));
}

#[test]
fn forbidden_pair_blocks_the_combining_pattern() {
    let pieces = grid();
    let (mut pr, mut oracle) = pricer(&pieces, 10, 7);
    let constraints = BranchConstraints::default().with_forbidden(0, 1);
    assert!(matches!(
        pr.price(&duals(&[0.3; 4]), &constraints, &mut oracle),
        PriceOutcome::NoneExists
    ));
}

#[test]
fn forced_together_pair_requires_the_full_grid() {
    let pieces = grid();
    let mu = [0.35, 0.1, 0.35, 0.35];

    let (mut pr, mut oracle) = pricer(&pieces, 10, 7);
    match pr.price(&duals(&mu), &BranchConstraints::default(), &mut oracle) {
        PriceOutcome::Column(p) => {
            let mut items = p.items.clone();
            items.sort_unstable();
            assert_eq!(
                items,
                vec![0, 2, 3],
                "expected the unconstrained triple, excluding type 1"
            );
        }
        _ => panic!("expected a column"),
    }

    let (mut pr2, mut oracle2) = pricer(&pieces, 10, 7);
    let constraints = BranchConstraints::default().with_forced_together(0, 1);
    match pr2.price(&duals(&mu), &constraints, &mut oracle2) {
        PriceOutcome::Column(p) => {
            let mut items = p.items.clone();
            items.sort_unstable();
            assert_eq!(
                items,
                vec![0, 1, 2, 3],
                "must include the full grid to satisfy forced-together"
            );
            check_pattern(&pieces, 10, 7, &p, &mu);
        }
        _ => panic!("expected the full grid under forced-together"),
    }
}

// Rotatable 4x6 pieces on a 6x8 sheet: only the rotated stack fits.
#[test]
fn rotation_used_in_pattern() {
    let pieces = vec![piece(4, 6, true), piece(4, 6, true)];
    let mu = [0.6, 0.6];
    let (mut pr, mut oracle) = pricer(&pieces, 6, 8);
    match pr.price(&duals(&mu), &BranchConstraints::default(), &mut oracle) {
        PriceOutcome::Column(p) => {
            assert_eq!(p.items.len(), 2);
            assert!(p.placements.iter().all(|pl| pl.rotated), "both pieces must be rotated");
            check_pattern(&pieces, 6, 8, &p, &mu);
        }
        _ => panic!("expected a column with rotated pieces"),
    }
}

fn limited(limits: PricingLimits) -> PriceOutcome {
    let pieces = grid();
    let mut oracle = GlfOracle::new(10, 7, limits.max_cells, limits.max_splits);
    let mut pr = Pricer::new(&pieces, 10, 7, limits);
    pr.price(&duals(&[0.3; 4]), &BranchConstraints::default(), &mut oracle)
}

#[test]
fn aborted_when_node_budget_tiny() {
    let limits = PricingLimits { max_nodes: 2, max_cells: 200_000, max_splits: 2_000_000 };
    assert!(matches!(limited(limits), PriceOutcome::Aborted));
}

#[test]
fn aborted_when_cell_budget_tiny() {
    let limits = PricingLimits { max_nodes: 200_000, max_cells: 3, max_splits: 2_000_000 };
    assert!(matches!(limited(limits), PriceOutcome::Aborted));
}

#[test]
fn aborted_when_split_budget_tiny() {
    let limits = PricingLimits { max_nodes: 200_000, max_cells: 200_000, max_splits: 1 };
    assert!(matches!(limited(limits), PriceOutcome::Aborted));
}

#[test]
fn none_exists_for_zero_duals() {
    let pieces = vec![piece(5, 5, false)];
    let (mut pr, mut oracle) = pricer(&pieces, 10, 10);
    assert!(matches!(
        pr.price(&duals(&[0.0]), &BranchConstraints::default(), &mut oracle),
        PriceOutcome::NoneExists
    ));
}

fn tiny_problem(n_pieces: usize) -> Problem {
    Problem {
        sheet: Sheet { width: 10, height: 10 },
        pieces: (0..n_pieces).map(|_| piece(5, 5, false)).collect(),
    }
}

fn dummy_pattern(items: Vec<usize>) -> Pattern {
    Pattern { items, placements: vec![] }
}

// Three items of distinct types and only patterns of two: the optimum is one half of each pair.
#[test]
fn pick_fractional_type_pair_finds_a_fractional_pair() {
    let pieces = vec![piece(5, 5, false), piece(4, 4, false), piece(3, 3, false)];
    let pricer = Pricer::new(&pieces, 10, 10, PricingLimits::default());
    let patterns = vec![
        dummy_pattern(vec![0]),
        dummy_pattern(vec![1]),
        dummy_pattern(vec![2]),
        dummy_pattern(vec![0, 1]),
        dummy_pattern(vec![0, 2]),
        dummy_pattern(vec![1, 2]),
    ];
    let basic = vec![(3, parts(0.5)), (4, parts(0.5)), (5, parts(0.5))];
    let (t, t2) = pick_fractional_type_pair(&pricer, &patterns, &basic)
        .expect("must find a fractional type pair");
    let pair = (t.min(t2), t.max(t2));
    assert!([(0, 1), (0, 2), (1, 2)].contains(&pair), "unexpected pair {pair:?}");
    assert!(node_has_fractional_lambda(&basic));
    assert!(!node_has_fractional_lambda(&vec![(0, UNIT), (1, 0)]));
}

#[test]
fn children_keep_the_patterns_that_agree_with_them() {
    let problem = Problem {
        sheet: Sheet { width: 10, height: 10 },
        pieces: vec![piece(5, 5, false), piece(4, 4, false)],
    };
    let pricer = Pricer::new(&problem.pieces, 10, 10, PricingLimits::default());
    let both = Pattern {
        items: vec![0, 1],
        placements: vec![
            Placement { sheet_idx: 0, piece_idx: 0, x: 0, y: 0, rotated: false },
            Placement { sheet_idx: 0, piece_idx: 1, x: 5, y: 0, rotated: false },
        ],
    };
    let patterns =
        vec![singleton_pattern(0, &problem), singleton_pattern(1, &problem), both];
    let apart = child_patterns(&problem, &pricer, &patterns, 0, 1, false);
    assert_eq!(apart.len(), 2, "the combined pattern must not survive the filter");
    let together = child_patterns(&problem, &pricer, &patterns, 0, 1, true);
    assert_eq!(together.len(), 3);
    assert_eq!(together[2].items, vec![0, 1]);
}

#[test]
fn round_gap_prefers_the_combining_pattern_over_singletons() {
    let problem = tiny_problem(2);
    let patterns = vec![
        singleton_pattern(0, &problem),
        singleton_pattern(1, &problem),
        Pattern {
            items: vec![0, 1],
            placements: vec![
                Placement { sheet_idx: 0, piece_idx: 0, x: 0, y: 0, rotated: false },
                Placement { sheet_idx: 0, piece_idx: 1, x: 5, y: 0, rotated: false },
            ],
        },
    ];
    let basic = vec![(2, UNIT)];

    // Strictly improves on a 2-sheet incumbent: both items fit one sheet.
    let (sheets, placements) =
        round_gap(&basic, &patterns, &problem, 2).expect("must improve on 2 sheets");
    assert_eq!(sheets, 1);
    assert_eq!(placements.len(), 2);
    assert!(placements.iter().all(|p| p.sheet_idx == 0));

    // Does not "improve" on an incumbent that is already as good.
    assert!(round_gap(&basic, &patterns, &problem, 1).is_none());
}

#[test]
fn round_gap_falls_back_to_bfdh_for_items_the_pool_never_covers() {
    // The patterns know of items 0 and 1 only, the problem has a third one.
    let problem = tiny_problem(3);
    let patterns = vec![singleton_pattern(0, &problem), singleton_pattern(1, &problem)];
    let basic = vec![(0, UNIT), (1, UNIT)];

    let (sheets, placements) =
        round_gap(&basic, &patterns, &problem, usize::MAX).expect("must produce a solution");
    assert!(sheets >= 3, "expected at least 3 sheets, got {sheets}");
    assert_eq!(placements.len(), 3);
    assert!(
        placements.iter().any(|p| p.piece_idx == 2),
        "item 2 must be placed by the fallback"
    );
}

#[test]
fn trivially_optimal_single_sheet() {
    // One piece that exactly fills the sheet: both bounds are 1.
    let spec = parse_problem("10x10F::10x10").unwrap();
    let tree = Tree::plant(&expand_problem(&spec));
    assert!(tree.is_closed(), "should be proven optimal");
    assert_eq!((tree.lb0, tree.global_ub), (1, 1));
    assert_eq!(tree.opening(), Opening::Proven(BpcStatus::Optimal { sheets: 1 }));
}

#[test]
fn lp_bound_tighter_than_area_bound_proves_optimal() {
    // A 3x3 grid takes 9 of the 20 copies, so that the area bound of 2 is loose. With duals of
    // one ninth nothing improves, and the value 20/9 rounds up to 3.
    let spec = parse_problem("100x100F::30x30/20").unwrap();
    let problem = expand_problem(&spec);
    let mut tree = Tree::plant(&problem);
    assert_eq!((tree.lb0, tree.global_ub), (2, 3));
    assert_eq!(tree.opening(), Opening::Begin(Bounds { iteration: 0, lb: 2, ub: 3 }));
    let (mut pr, mut oracle) = pricer(&problem.pieces, 100, 100);
    let node = match tree.next(false, 10_000) {
        TreeStep::Work(node) => node,
        TreeStep::Done(_) => panic!("the tree has a root"),
    };
    let mu = vec![UNIT / 9; 20];
    assert!(matches!(
        pr.price(&mu, &node.constraints, &mut oracle),
        PriceOutcome::NoneExists
    ));
    let basic = (0..20).map(|i| (i, UNIT / 9)).collect::<Vec<_>>();
    tree.converged(&problem, &pr, node, 20 * (UNIT / 9), &basic);
    match tree.next(false, 10_000) {
        TreeStep::Done(status) => {
            assert_eq!(status.sheets_used(), 3, "3x3 grids cap every sheet at 9 copies");
            assert!(status.is_proven(), "the bound must tighten to match");
        }
        TreeStep::Work(_) => panic!("nothing is left to do"),
    }
    // One more ninth would be worth another pattern.
    assert!(matches!(
        pr.price(&vec![UNIT / 8; 20], &BranchConstraints::default(), &mut oracle),
        PriceOutcome::Column(_)
    ));
}

#[test]
fn stop_flag_respected() {
    let spec = parse_problem("100x100F::30x30/20").unwrap();
    let mut tree = Tree::plant(&expand_problem(&spec));
    match tree.next(true, BpcConfig::default().max_tree_nodes) {
        TreeStep::Done(status) => {
            assert_eq!(status, BpcStatus::Stopped { lb: 2, ub: 3 });
            assert!(!status.is_proven());
            assert_eq!(status.sheets_used(), 3);
        }
        TreeStep::Work(_) => panic!("must stop"),
    }
}

#[test]
fn found_patterns_join_the_pool() {
    let problem = tiny_problem(2);
    let mut tree = Tree::plant(&problem);
    let (mut pr, mut oracle) = pricer(&problem.pieces, 10, 10);
    let mut node = match tree.next(false, 10) {
        TreeStep::Work(node) => node,
        TreeStep::Done(_) => panic!("the tree has a root"),
    };
    match pr.price(&duals(&[1.0, 1.0]), &node.constraints, &mut oracle) {
        PriceOutcome::Column(p) => node.add_pattern(p),
        _ => panic!("both pieces go on one sheet"),
    }
    assert_eq!(node.patterns.len(), 3);
    assert_eq!(node.patterns[2].items.len(), 2);
    tree.converged(&problem, &pr, node, UNIT, &vec![(2, UNIT)]);
    assert_eq!(tree.global_ub, 1);
}

#[test]
fn node_budget_ends_with_a_gap() {
    let spec = parse_problem("100x100F::30x30/20").unwrap();
    let mut tree = Tree::plant(&expand_problem(&spec));
    match tree.next(false, 0) {
        TreeStep::Done(status) => assert_eq!(status, BpcStatus::Gap { lb: 2, ub: 3 }),
        TreeStep::Work(_) => panic!("no node may be worked on"),
    }
}

#[test]
fn unfinished_nodes_leave_a_gap() {
    let spec = parse_problem("100x100F::30x30/20").unwrap();
    let mut tree = Tree::plant(&expand_problem(&spec));
    assert!(matches!(tree.next(false, 10), TreeStep::Work(_)));
    tree.aborted();
    match tree.next(false, 10) {
        TreeStep::Done(status) => assert_eq!(status, BpcStatus::Gap { lb: 2, ub: 3 }),
        TreeStep::Work(_) => panic!("nothing is left to do"),
    }
}

#[test]
fn lower_bounds_round_up_with_a_margin() {
    assert_eq!(round_down_lb(0), 0);
    assert_eq!(round_down_lb(parts(2.0)), 2);
    assert_eq!(round_down_lb(parts(2.00005)), 2);
    assert_eq!(round_down_lb(parts(2.001)), 3);
    let problem = expand_problem(&parse_problem("100x100F::30x30/20").unwrap());
    assert_eq!(area_bound(&problem), 2);
}

#[test]
fn rounds_count_report_and_end() {
    let mut rounds = Rounds::new(0, 2);
    assert_eq!(rounds.max_iterations, 1_020);
    assert_eq!(rounds.before_round(true), CgStep::End(CgOutcome::StopRequested));
    assert_eq!(rounds.before_round(false), CgStep::Go);
    let column = PriceOutcome::Column(dummy_pattern(vec![0]));
    assert_eq!(rounds.after_round(&column), CgStep::Go);
    assert_eq!(rounds.after_round(&column), CgStep::Report);
    assert_eq!(rounds.after_round(&PriceOutcome::NoneExists), CgStep::End(CgOutcome::Converged));
    assert_eq!(rounds.after_round(&PriceOutcome::Aborted), CgStep::End(CgOutcome::Aborted));
    let next = rounds.at_next_node();
    assert_eq!((next.iteration, next.local), (2, 0));
    let full = Rounds { local: 1_020, ..next };
    assert_eq!(full.before_round(false), CgStep::End(CgOutcome::Aborted));
}

#[test]
fn latest_bounds_wait_for_the_sink() {
    let report = |iteration| Bounds { iteration, lb: 1, ub: 2 };
    let mut drain = BoundsDrain::new(1_000);
    assert_eq!(drain.progress(report(1), true), Some(report(1)));
    assert_eq!(drain.progress(report(2), false), None);
    assert_eq!(drain.progress(report(3), false), None);
    assert_eq!(drain.flush(), Some(report(3)));
    assert_eq!(drain.flush(), None);
    let mut eager = BoundsDrain::new(0);
    assert_eq!(eager.progress(report(4), false), Some(report(4)));
}

fn node(pending_lb: usize) -> BpcNode {
    BpcNode { constraints: BranchConstraints::default(), patterns: vec![], pending_lb }
}

fn tree(lb0: usize, global_ub: usize, open: Vec<BpcNode>, incomplete: bool) -> Tree {
    let best = Solution { placements: vec![], leftovers: vec![] };
    Tree { open, lb0, global_ub, best, processed: 0, incomplete }
}

fn answer(mut tree: Tree, stopped: bool) -> BpcStatus {
    match tree.next(stopped, 0) {
        TreeStep::Done(status) => status,
        TreeStep::Work(_) => panic!("no node may be worked on"),
    }
}

#[test]
fn reported_bounds_are_in_order() {
    // No gap is left where the bound by area is reached.
    assert_eq!(answer(tree(3, 3, vec![], true), false), BpcStatus::Optimal { sheets: 3 });
    assert_eq!(answer(tree(2, 3, vec![], true), false), BpcStatus::Gap { lb: 2, ub: 3 });
    // A waiting node whose bound is above the best solution.
    assert_eq!(answer(tree(2, 4, vec![node(5)], false), false), BpcStatus::Optimal { sheets: 4 });
    assert_eq!(answer(tree(2, 4, vec![node(5), node(3)], false), false), BpcStatus::Gap { lb: 3, ub: 4 });
    // What was left out counts with the bound by area.
    assert_eq!(answer(tree(2, 4, vec![node(3)], true), false), BpcStatus::Gap { lb: 2, ub: 4 });
    assert_eq!(answer(tree(2, 4, vec![node(5), node(5)], false), true), BpcStatus::Stopped { lb: 4, ub: 4 });
    let t = tree(2, 4, vec![node(5)], false);
    assert_eq!((t.progress_lb(&node(3)), t.progress_lb(&node(6))), (3, 4));
    assert_eq!(tree(2, 4, vec![node(5)], true).progress_lb(&node(3)), 2);
}

#[test]
fn pieces_that_only_lie_are_laid_down() {
    // The piece is higher than the sheet as it stands, and fits lying.
    let problem =
        Problem { sheet: Sheet { width: 20, height: 10 }, pieces: vec![piece(10, 20, true)] };
    let patterns = vec![singleton_pattern(0, &problem)];
    let (sheets, placements) = round_gap(&vec![], &patterns, &problem, 3).unwrap();
    assert_eq!(sheets, 1);
    assert_eq!((placements[0].x, placements[0].y, placements[0].rotated), (0, 0, true));

    // Two lying pieces of 200 x 50 go on a sheet.
    let problem = Problem {
        sheet: Sheet { width: 300, height: 100 },
        pieces: (0..12).map(|_| piece(50, 200, true)).collect(),
    };
    let patterns: Vec<Pattern> = (0..12).map(|i| singleton_pattern(i, &problem)).collect();
    let (sheets, placements) = round_gap(&vec![], &patterns, &problem, 12).unwrap();
    assert_eq!(sheets, 6);
    assert!(placements.iter().all(|p| p.rotated && p.x + 200 <= 300 && p.y + 50 <= 100));
    assert!(build_cut_tree(&problem, &placements).is_ok());
    assert!(round_gap(&vec![], &patterns, &problem, 6).is_none());
}

#[test]
fn margin_grows_with_the_number_of_sheets() {
    assert_eq!(round_down_lb(parts(50.00015)), 51);
    assert_eq!(round_down_lb(parts(200.00015)), 200);
    assert_eq!(round_down_lb(parts(200.0003)), 201);
    assert_eq!(round_down_lb(u64::MAX), 18_446_726);
}
