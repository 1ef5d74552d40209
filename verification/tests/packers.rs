use cut::decoder;
use cut::expand::{expand_problem, shrink_solution};
use cut::heuristic::gbaf::gbaf_solve;
use cut::heuristic::groupsub::groupsub_solve;
use cut::heuristic::{jylanki_solve, simple_solve};
use cut::model::{validate_solution, Piece, Placement, Problem, Sheet, Solution};
use cut::parse::{parse_spec, FlatProblem};
use cut::slas::decoder::{decode, Gene, Genome};
use cut::slas::encoder::{encode, encode_spec};
use cut::{heuristic, parse_compact};

fn problem(s: &str) -> Problem {
    expand_problem(&parse_spec(s).expect("Error parsing problem"))
}

fn compact(s: &str) -> Problem {
    expand_problem(&parse_compact::parse_problem(s).expect("Error parsing problem"))
}

#[test]
fn heuristic_jylanki_four_quarters_fill_one_sheet() {
    let p = problem("100x100F:0:50x50/4");
    let sol = jylanki_solve(&p);
    assert_eq!(sol.placements.len(), 4);
    assert_eq!(sol.sheets_used(), 1);
}

#[test]
fn heuristic_jylanki_piece_requiring_rotation_is_rotated() {
    // The normal form is 10x20 portrait, which only fits the 20x10 sheet when rotated.
    let p = problem("20x10F:0:20x10r");
    let sol = jylanki_solve(&p);
    assert_eq!(sol.sheets_used(), 1);
    assert_eq!(sol.placements.len(), 1);
    assert!(sol.placements[0].rotated);
}

#[test]
fn jylanki_not_worse_than_gbaf_on_sheets() {
    let p = problem("2600x1800F:3:400x400/6,495x495/6,270x320/10,150x450/17r");
    let j = jylanki_solve(&p);
    let g = gbaf_solve(&p);
    assert!(
        j.sheets_used() <= g.sheets_used(),
        "jylanki used {} sheets, gbaf used {}",
        j.sheets_used(),
        g.sheets_used()
    );
}

#[test]
fn heuristic_jylanki_same_input_produces_identical_solution() {
    let p = problem("2600x1800F:3:400x400/6,495x495/6,270x320/10,150x450/17r");
    let a = jylanki_solve(&p);
    let b = jylanki_solve(&p);
    assert_eq!(a.placements, b.placements);
    assert_eq!(a.leftovers, b.leftovers);
}

#[test]
fn jylanki_jylanki_four_quarters_fill_one_sheet() {
    let p = compact("100x100F::50x50/4");
    let sol = heuristic::jylanki::jylanki_solve(&p);
    assert_eq!(sol.placements.len(), 4);
    assert_eq!(sol.sheets_used(), 1);
}

#[test]
fn jylanki_jylanki_piece_requiring_rotation_is_rotated() {
    let p = compact("20x10F::20x10r");
    let sol = heuristic::jylanki::jylanki_solve(&p);
    assert_eq!(sol.sheets_used(), 1);
    assert_eq!(sol.placements.len(), 1);
    assert!(sol.placements[0].rotated);
}

#[test]
fn jylanki_jylanki_same_input_produces_identical_solution() {
    let p = compact("2600x1800F:3,0:400x400/6,495x495/6,270x320/10,150x450/17r");
    let a = heuristic::jylanki::jylanki_solve(&p);
    let b = heuristic::jylanki::jylanki_solve(&p);
    assert_eq!(a.placements, b.placements);
    assert_eq!(a.leftovers, b.leftovers);
}

// Head 50x100 fills one column; the second column takes exactly 30+70.
#[test]
fn groupsub_mixed_column_fills_one_sheet() {
    let p = problem("100x100F:0:50x100/1f,50x30/1f,50x70/1f");
    let sol = groupsub_solve(&p);
    assert_eq!(sol.placements.len(), 3);
    assert_eq!(sol.sheets_used(), 1);
}

#[test]
fn groupsub_solution_is_valid() {
    let p = problem("2600x1800F:3:400x400/6,495x495/6,270x320/10,150x450/17r");
    let sol = groupsub_solve(&p);
    assert_eq!(sol.placements.len(), p.pieces.len());
    let errors = validate_solution(&p, &sol);
    assert!(errors.is_empty(), "{errors:?}");
}

#[test]
fn groupsub_not_worse_than_gbaf_on_sheets() {
    let p = problem("2600x1800F:3:400x400/6,495x495/6,270x320/10,150x450/17r");
    let g = groupsub_solve(&p);
    let b = gbaf_solve(&p);
    assert!(
        g.sheets_used() <= b.sheets_used(),
        "groupsub used {} sheets, gbaf used {}",
        g.sheets_used(),
        b.sheets_used()
    );
}

#[test]
fn groupsub_same_input_produces_identical_solution() {
    let p = problem("2600x1800F:3:400x400/6,495x495/6,270x320/10,150x450/17r");
    let a = groupsub_solve(&p);
    let b = groupsub_solve(&p);
    assert_eq!(a.placements, b.placements);
    assert_eq!(a.leftovers, b.leftovers);
}

#[test]
fn all_packers_place_every_piece_once() {
    let p = problem("2600x1800F:3:400x400/6,495x495/6,270x320/10,150x450/17r");
    let solutions: Vec<Solution> = vec![
        heuristic::nfdh::nfdh_solve(&p),
        heuristic::bfdh::bfdh_solve(&p),
        heuristic::bfdh_solve(&p),
        simple_solve(&p),
        gbaf_solve(&p),
        heuristic::beam::beam_solve(&p, 3),
        groupsub_solve(&p),
        jylanki_solve(&p),
    ];
    for sol in &solutions {
        let mut seen = sol.placements.iter().map(|pl| pl.piece_idx).collect::<Vec<_>>();
        seen.sort_unstable();
        assert_eq!(seen, (0..p.pieces.len()).collect::<Vec<_>>());
        assert!(validate_solution(&p, sol).is_empty());
        assert!(sol.placements.iter().all(|pl| !pl.rotated || p.pieces[pl.piece_idx].can_rotate));
        assert!(sol.sheets_used() >= cut::exact::bpc::area_bound(&p));
    }
}

fn flat(sheet: (u32, u32), kerf: u32, dims: &[(u32, u32, bool)]) -> FlatProblem {
    FlatProblem {
        sheet: Sheet { width: sheet.0, height: sheet.1 },
        kerf,
        pieces: dims
            .iter()
            .map(|&(w, h, can_rotate)| Piece {
                name: String::new(),
                width: w,
                height: h,
                can_rotate,
            })
            .collect(),
    }
}

fn sawn(piece_idx: usize, rotate: bool, point_selector: u32) -> decoder::Gene {
    decoder::Gene { piece_idx, rotate, point_selector }
}

fn g(piece_idx: usize, rotate: bool, ps: u32) -> Gene {
    Gene { piece_idx, rotate, point_selector: ps, inverse: false }
}

#[test]
fn decoder_decode_two_sheets() {
    let problem = flat(
        (200, 150),
        5,
        &[(120, 80, false), (60, 80, false), (200, 60, false), (70, 100, true), (60, 70, true)],
    );
    let genome = vec![
        sawn(0, false, 0),
        sawn(1, false, 0),
        sawn(2, false, 0),
        sawn(3, true, 0),
        sawn(4, true, 2),
    ];
    let sol = decoder::decode(&problem, &genome);
    assert_eq!(sol.sheets_used(), 2);
    let p = &sol.placements;
    assert_eq!(p.len(), 5);
    assert_eq!((p[0].sheet_idx, p[0].x, p[0].y, p[0].rotated), (0, 0, 0, false));
    assert_eq!((p[1].sheet_idx, p[1].x, p[1].y, p[1].rotated), (0, 125, 0, false));
    assert_eq!((p[2].sheet_idx, p[2].x, p[2].y, p[2].rotated), (1, 0, 0, false));
    assert_eq!((p[3].sheet_idx, p[3].x, p[3].y, p[3].rotated), (1, 0, 65, true));
    assert_eq!((p[4].sheet_idx, p[4].x, p[4].y, p[4].rotated), (0, 125, 85, true));

    let spec =
        parse_compact::parse_problem("200x150F:5,0:120x80,60x80,200x60,70x100r,60x70r")
            .expect("Error parsing problem");
    let problem = expand_problem(&spec);
    let genome = vec![
        g(0, false, 0),
        g(1, false, 0),
        g(2, false, 0),
        g(3, true, 0),
        g(4, true, 2),
    ];
    let sol = decode(&problem, &genome);
    assert_eq!(sol.sheets_used(), 2);
    let p = &sol.placements;
    assert_eq!(p.len(), 5);
    let find = |idx: usize| p.iter().find(|pl| pl.piece_idx == idx).unwrap();
    let tuple = |pl: &Placement| (pl.sheet_idx, pl.x, pl.y, pl.rotated);
    assert_eq!(tuple(find(0)), (0, 0, 0, false));
    assert_eq!(tuple(find(1)), (0, 125, 0, false));
    assert_eq!(tuple(find(2)), (1, 0, 0, false));
    assert_eq!(tuple(find(3)), (1, 0, 65, true));
    assert_eq!(tuple(find(4)), (0, 125, 85, true));
}

#[test]
fn objective_prefers_smaller_area_on_last_sheet() {
    let problem = flat((10, 10), 0, &[(10, 6, false), (10, 4, false), (3, 3, false)]);
    let sol_a =
        decoder::decode(&problem, &vec![sawn(0, false, 0), sawn(1, false, 0), sawn(2, false, 0)]);
    let sol_b =
        decoder::decode(&problem, &vec![sawn(0, false, 0), sawn(2, false, 0), sawn(1, false, 0)]);
    let plain = Problem { sheet: problem.sheet, pieces: problem.pieces };
    let (a, b) = (sol_a.eval(&plain), sol_b.eval(&plain));
    // One number: sheets, each worth one more than its area, and the area on the last sheet.
    assert_eq!(a.sheets_used_int() as u64 * 101 + a.last_sheet_area, 211); // 2*101 + 9
    assert_eq!(b.sheets_used_int() as u64 * 101 + b.last_sheet_area, 242); // 2*101 + 40
    assert!(a.is_better(&b));
}

#[test]
fn encode_2x2_tiles_one_sheet() {
    // 4 identical 1×1 pieces tiling a 2×2 sheet exactly.
    let spec = parse_spec("2x2F:0:1x1/4").expect("parse");
    let problem = expand_problem(&spec);
    let optimal = Solution {
        placements: vec![
            Placement { sheet_idx: 0, piece_idx: 0, x: 0, y: 0, rotated: false },
            Placement { sheet_idx: 0, piece_idx: 1, x: 1, y: 0, rotated: false },
            Placement { sheet_idx: 0, piece_idx: 2, x: 0, y: 1, rotated: false },
            Placement { sheet_idx: 0, piece_idx: 3, x: 1, y: 1, rotated: false },
        ],
        leftovers: vec![],
    };
    let genome = encode(&optimal, &problem);
    assert_eq!(genome.len(), 4);
    let sol = decode(&problem, &genome);
    assert_eq!(sol.sheets_used(), 1);
}

#[test]
fn encode_preserves_sheet_count() {
    let spec = parse_spec("200x150F:5:120x80,60x80,200x60,70x100r,60x70r").expect("parse");
    let problem = expand_problem(&spec);
    let genome_orig = vec![
        g(0, false, 0),
        g(1, false, 0),
        g(2, false, 0),
        g(3, true, 0),
        g(4, true, 2),
    ];
    let sol = decode(&problem, &genome_orig);
    let genome_enc = encode(&sol, &problem);
    let sol2 = decode(&problem, &genome_enc);
    assert!(sol2.sheets_used() <= sol.sheets_used());
}

#[test]
fn encode_spec_roundtrip() {
    let spec = parse_spec("10x10F:0:3x4,4x3,5x5").expect("parse");
    let problem = expand_problem(&spec);
    let genome_orig: Genome = (0..3).map(|i| g(i, false, 0)).collect();
    let sol = decode(&problem, &genome_orig);
    let sol_spec = shrink_solution(&sol, &spec);
    let genome_enc = encode_spec(&spec, &sol_spec);
    let sol2 = decode(&problem, &genome_enc);
    assert!(sol2.sheets_used() <= sol.sheets_used());
}

#[test]
fn saw_cut_and_margin_are_kept_in_the_result() {
    let spec = parse_compact::parse_problem("120x120F:5,10:40x40/4").unwrap();
    let problem = expand_problem(&spec);
    let sol = shrink_solution(&jylanki_solve(&problem), &spec);
    assert_eq!(sol.sheets_used(), 1);
    for (i, a) in sol.placements.iter().enumerate() {
        assert!(a.x >= 10 && a.y >= 10 && a.x + 40 <= 110 && a.y + 40 <= 110);
        for b in &sol.placements[i + 1..] {
            assert!(
                a.x + 45 <= b.x || b.x + 45 <= a.x || a.y + 45 <= b.y || b.y + 45 <= a.y
            );
        }
    }
}
