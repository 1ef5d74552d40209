use cut::exact::bpc::{singleton_pattern, BpcNode, Pattern, Tree};
use cut::exact::duality::borne_value;
use cut::exact::oracle::GlfOracle;
use cut::exact::pricing::{BranchConstraints, PriceOutcome, Pricer, PricingLimits, UNIT};
use cut::expand::{expand_problem, expand_solution, shrink_solution};
use cut::ga::GaConfig;
use cut::generator::{generate, GeneratorConfig};
use cut::glas::glf_preplace::glf_preplace;
use cut::gpf::groups::build_gpf;
use cut::heuristic::beam::beam_solve;
use cut::heuristic::gbaf::gbaf_solve;
use cut::heuristic::groupsub::groupsub_solve;
use cut::model::{
    Piece, PieceType, Placement, PlacementSpec, Problem, ProblemSpec, Sheet, Solution,
    SolutionSpec,
};
use cut::parse_compact::parse_problem;
use cut::slas;
use rand::{Rng, SeedableRng};
use rand_xoshiro::Xoshiro256StarStar;

fn piece(width: u32, height: u32) -> Piece {
    Piece { name: String::new(), width, height, can_rotate: false }
}

/// Three pieces on sheets of 10 x 5, two on each, of sizes that are given.
fn three(a: (u32, u32), b: (u32, u32), c: (u32, u32)) -> Problem {
    Problem {
        sheet: Sheet { width: 10, height: 5 },
        pieces: vec![piece(a.0, a.1), piece(b.0, b.1), piece(c.0, c.1)],
    }
}

/// A tree at work on a node whose pool has a pattern of the first and the last piece.
fn tree_and_node(problem: &Problem) -> (Tree, BpcNode) {
    let both = Pattern {
        items: vec![0, 2],
        placements: vec![
            Placement { sheet_idx: 0, piece_idx: 0, x: 0, y: 0, rotated: false },
            Placement { sheet_idx: 0, piece_idx: 2, x: 5, y: 0, rotated: false },
        ],
    };
    let mut patterns: Vec<Pattern> = (0..3).map(|i| singleton_pattern(i, problem)).collect();
    patterns.push(both);
    let node =
        BpcNode { constraints: BranchConstraints::default(), patterns, pending_lb: 1 };
    let placements = (0..3)
        .map(|i| Placement { sheet_idx: i, piece_idx: i, x: 0, y: 0, rotated: false })
        .collect();
    let best = Solution { placements, leftovers: vec![] };
    let tree =
        Tree { open: vec![], lb0: 1, global_ub: 3, best, processed: 1, incomplete: false };
    (tree, node)
}

#[test]
fn branching_on_single_copies_covers_all() {
    let problem = three((5, 5), (5, 3), (5, 4));
    let pr = Pricer::new(&problem.pieces, 10, 5, PricingLimits::default());
    let (mut tree, node) = tree_and_node(&problem);
    let basic = vec![(1, UNIT), (3, UNIT / 2), (0, UNIT / 2), (2, UNIT / 2)];
    tree.converged(&problem, &pr, node, UNIT, &basic);
    assert_eq!((tree.global_ub, tree.open.len(), tree.incomplete), (2, 2, false));
    assert_eq!(tree.open[0].constraints.forced_together, vec![(0, 2)]);
    assert_eq!(tree.open[1].constraints.forbidden, vec![(0, 2)]);
}

#[test]
fn branching_on_repeated_types_is_incomplete() {
    let problem = three((5, 5), (5, 5), (5, 4));
    let pr = Pricer::new(&problem.pieces, 10, 5, PricingLimits::default());
    let (mut tree, node) = tree_and_node(&problem);
    let basic = vec![(1, UNIT), (3, UNIT / 2), (0, UNIT / 2), (2, UNIT / 2)];
    tree.converged(&problem, &pr, node, UNIT, &basic);
    assert_eq!((tree.global_ub, tree.open.len(), tree.incomplete), (2, 2, true));
}

#[test]
fn nothing_to_branch_on_is_incomplete() {
    let problem = three((5, 5), (5, 3), (5, 4));
    let pr = Pricer::new(&problem.pieces, 10, 5, PricingLimits::default());
    let (mut tree, node) = tree_and_node(&problem);
    tree.converged(&problem, &pr, node, UNIT, &vec![(1, UNIT)]);
    assert_eq!((tree.global_ub, tree.open.len(), tree.incomplete), (2, 0, true));
}

fn priced(mu: Vec<u64>, constraints: &BranchConstraints, max_nodes: usize) -> (PriceOutcome, usize) {
    let pieces = vec![piece(5, 5), piece(4, 4)];
    let limits = PricingLimits { max_nodes, max_cells: 100, max_splits: 100 };
    let mut pr = Pricer::new(&pieces, 10, 10, limits);
    let mut oracle = GlfOracle::new(10, 10, limits.max_cells, limits.max_splits);
    let r = pr.price(&mu, constraints, &mut oracle);
    (r, pr.nodes)
}

#[test]
fn copies_that_go_with_others_are_candidates_whatever_their_worth() {
    let tied = BranchConstraints::default().with_forced_together(0, 1);
    match priced(vec![UNIT + UNIT / 5, 0], &tied, 100) {
        (PriceOutcome::Column(p), _) => {
            let mut items = p.items;
            items.sort_unstable();
            assert_eq!(items, vec![0, 1]);
        }
        _ => panic!("expected a column"),
    }
    // On its own the worthless piece is left out.
    match priced(vec![UNIT + UNIT / 5, 0], &BranchConstraints::default(), 100) {
        (PriceOutcome::Column(p), _) => assert_eq!(p.items, vec![0]),
        _ => panic!("expected a column"),
    }
}

#[test]
fn search_counts_its_nodes() {
    let none = BranchConstraints::default();
    let low = vec![UNIT / 2, UNIT / 4];
    // The bound at the first node is no more than the threshold.
    assert!(matches!(priced(low.clone(), &none, 100), (PriceOutcome::NoneExists, 1)));
    assert!(matches!(priced(low, &none, 0), (PriceOutcome::Aborted, 0)));
    // A chain that pays takes no node.
    assert!(matches!(priced(vec![UNIT, UNIT], &none, 0), (PriceOutcome::Column(_), 0)));
}

#[test]
fn preplacement_of_long_sides() {
    let spec = parse_problem("1000000x1000000F::500000x500000").unwrap();
    let r = glf_preplace(&spec, 1);
    assert_eq!((r.n_sheets, r.placements.len()), (1, 1));
    assert_eq!((r.used_heights[0], r.used_widths[0]), (500_000, 500_000));
    assert!(r.remaining_to_original.is_empty());
}

#[test]
fn preplacement_without_steps_asks_nothing() {
    let spec = ProblemSpec {
        sheet: Sheet { width: 100, height: 100 },
        kerf: 0,
        margin: 60,
        piece_types: vec![PieceType {
            name: "a".to_string(),
            width: 10,
            height: 20,
            count: 3,
            can_rotate: false,
        }],
    };
    let r = glf_preplace(&spec, 0);
    assert_eq!((r.n_sheets, r.placements.len()), (0, 0));
    assert_eq!(r.remaining_spec.piece_types.len(), 1);
    assert_eq!(r.remaining_spec.piece_types[0].count, 3);
    assert_eq!(r.remaining_to_original, vec![0, 1, 2]);
}

#[test]
fn generator_goes_on_from_where_it_ended() {
    let cfg = GeneratorConfig {
        sheet: Sheet { width: 10, height: 8 },
        k: 2,
        min_size: 2,
        kerf: 0,
        weights: vec![1, 1],
    };
    let sizes = |rng: &mut Xoshiro256StarStar| -> Vec<(u32, u32)> {
        generate(&cfg, rng).problem.pieces.iter().map(|p| (p.width, p.height)).collect()
    };
    let mut a = Xoshiro256StarStar::seed_from_u64(5);
    let mut b = Xoshiro256StarStar::seed_from_u64(5);
    let first = sizes(&mut a);
    assert_eq!(first, sizes(&mut b));
    let state = a.clone().next_u64();
    assert_eq!(state, b.next_u64());
    assert_ne!(state, Xoshiro256StarStar::seed_from_u64(5).next_u64());
}

#[test]
fn longer_run_is_no_worse() {
    let problem = expand_problem(&parse_problem("100x100F::30x40/6,55x20/5,12x70/3").unwrap());
    let mut before = None;
    for iteration_count in [0, 1, 5, 20] {
        let cfg = GaConfig { pop_size: 10, iteration_count, ..GaConfig::default() };
        let mut rng = Xoshiro256StarStar::seed_from_u64(9);
        let now = slas::ga::run_ga(&problem, &cfg, &mut rng).objective;
        if let Some(b) = before {
            assert!(!cut::score::Objective::is_better(&b, &now));
        }
        before = Some(now);
    }
}

/// The area of pieces and leftovers on each sheet with a piece.
fn sheet_areas(problem: &Problem, sol: &Solution) -> Vec<u64> {
    let n = sol.placements.iter().map(|p| p.sheet_idx + 1).max().unwrap_or(0);
    let mut out = vec![0u64; n];
    for p in &sol.placements {
        let piece = &problem.pieces[p.piece_idx];
        out[p.sheet_idx] += piece.width as u64 * piece.height as u64;
    }
    for f in &sol.leftovers {
        out[f.sheet_idx] += f.w as u64 * f.h as u64;
    }
    out
}

#[test]
fn packers_lose_nothing() {
    let problem = expand_problem(&parse_problem("100x80F::30x40/6,55x20/5,12x70/3").unwrap());
    for sol in [gbaf_solve(&problem), beam_solve(&problem, 3), groupsub_solve(&problem)] {
        let areas = sheet_areas(&problem, &sol);
        assert!(!areas.is_empty());
        assert!(areas.iter().all(|&a| a == 8_000), "{areas:?}");
    }
}

#[test]
fn beam_of_one_packs_as_best_area_fit() {
    for text in [
        "100x100F::60x70,30x20,10x10",
        "20x20F::16x14,1x10",
        "100x80R::30x40/6,55x20/5,12x70/3",
    ] {
        let problem = expand_problem(&parse_problem(text).unwrap());
        let (a, b) = (beam_solve(&problem, 1), gbaf_solve(&problem));
        assert_eq!(a.placements, b.placements);
        assert_eq!(a.leftovers, b.leftovers);
    }
    // The second cut leaves the larger rectangle whole, as the roomier one.
    let problem = expand_problem(&parse_problem("20x20F::16x14,1x10").unwrap());
    let mut sizes: Vec<(u32, u32)> =
        beam_solve(&problem, 1).leftovers.iter().map(|f| (f.w, f.h)).collect();
    sizes.sort_unstable();
    assert!(sizes.contains(&(3, 14)) && sizes.contains(&(1, 4)), "{sizes:?}");
}

#[test]
fn solution_comes_back() {
    let spec = parse_problem("100x100F::30x40/2,20x20/1").unwrap();
    let at = |ptype_idx, x, y| PlacementSpec { sheet_idx: 0, ptype_idx, x, y, rotated: false };
    let sol = SolutionSpec {
        placements: vec![at(0, 0, 0), at(1, 0, 40), at(0, 30, 0)],
        leftovers: vec![],
    };
    let flat = expand_solution(&sol, &spec);
    assert_eq!(flat.placements.iter().map(|p| p.piece_idx).collect::<Vec<_>>(), vec![0, 2, 1]);
    let back = shrink_solution(&flat, &spec);
    assert_eq!(back.placements, sol.placements);
}

#[test]
fn reconstructed_layout_holds_each_piece_as_often_as_counted() {
    // The first and the last type are of the same size.
    let kind = |name: &str, width, height, count| PieceType {
        name: name.to_string(),
        width,
        height,
        count,
        can_rotate: false,
    };
    let spec = ProblemSpec {
        sheet: Sheet { width: 100, height: 100 },
        kerf: 0,
        margin: 0,
        piece_types: vec![kind("a", 30, 40, 2), kind("b", 20, 20, 1), kind("c", 30, 40, 1)],
    };
    let sol = build_gpf(&spec).reconstruct(100).unwrap();
    let of = |t| sol.placements.iter().filter(|p| p.ptype_idx == t).count();
    assert_eq!((of(0), of(1), of(2)), (2, 1, 1));
}

#[test]
fn value_is_no_more_than_the_dual_values_bear_out() {
    assert_eq!(borne_value(10, &vec![3, 4]), 7);
    assert_eq!(borne_value(10, &vec![3, 4, 5]), 10);
    assert_eq!(borne_value(0, &vec![]), 0);
    assert_eq!(borne_value(5, &vec![u64::MAX, u64::MAX]), 5);
}

#[test]
fn generator_uses_every_sheet() {
    let cfg = GeneratorConfig {
        sheet: Sheet { width: 20, height: 16 },
        k: 5,
        min_size: 2,
        kerf: 1,
        weights: vec![1, 1],
    };
    for seed in 0..20 {
        let out = generate(&cfg, &mut Xoshiro256StarStar::seed_from_u64(seed));
        let mut sheets: Vec<usize> =
            out.optimal_solution.placements.iter().map(|p| p.sheet_idx).collect();
        sheets.sort_unstable();
        sheets.dedup();
        assert_eq!(sheets, vec![0, 1, 2, 3, 4]);
    }
}

#[test]
fn too_small_dual_values_bear_nothing_out() {
    assert_eq!(borne_value(10, &vec![1, 1, 5, 1]), 5);
}
