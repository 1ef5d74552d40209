use cut::expand::expand_problem;
use cut::glas::decoder::{decode, FreePool, Gene};
use cut::gslas;
use cut::model::validate_solution;
use cut::parse::parse_spec;
use cut::parse_compact::parse_problem;
use cut::small::{Inverses, Selectors};

fn gg(type_idx: usize, count: usize) -> Gene {
    Gene {
        type_idx,
        rotate: false,
        selectors: Selectors::of(&vec![0u32; count]),
        inverses: Inverses::of(&vec![false; count]),
    }
}

fn steered(type_idx: usize, selectors: Vec<u32>) -> Gene {
    Gene { selectors: Selectors::of(&selectors), ..gg(type_idx, selectors.len()) }
}

#[test]
fn decoder_two_identical_pieces_form_a_strip() {
    // Sheet 200×100, one type: 2×(80×100).
    let spec = parse_problem("200x100F::80x100/2").expect("parse");
    let problem = expand_problem(&spec);
    let sol = decode(&problem, &spec, &vec![vec![gg(0, 2)]]);
    assert_eq!(sol.sheets_used(), 1);
    assert_eq!(sol.placements.len(), 2);
    let p0 = sol.placements.iter().find(|p| p.piece_idx == 0).unwrap();
    let p1 = sol.placements.iter().find(|p| p.piece_idx == 1).unwrap();
    assert_eq!((p0.x, p0.y, p0.sheet_idx), (0, 0, 0));
    assert_eq!((p1.x, p1.y, p1.sheet_idx), (80, 0, 0));

    let spec = parse_spec("200x100F:0:80x100/2").expect("parse");
    let problem = expand_problem(&spec);
    let sol = gslas::decoder::decode(&problem, &spec, &vec![gg(0, 2)]);
    assert_eq!(sol.sheets_used(), 1);
    assert_eq!(sol.placements.len(), 2);
    let p0 = sol.placements.iter().find(|p| p.piece_idx == 0).unwrap();
    let p1 = sol.placements.iter().find(|p| p.piece_idx == 1).unwrap();
    assert_eq!((p0.x, p0.y, p0.sheet_idx), (0, 0, 0));
    assert_eq!((p1.x, p1.y, p1.sheet_idx), (80, 0, 0));
}

#[test]
fn decoder_strip_overflows_to_next_rect() {
    // Sheet 100×100, one type: 3×(60×40): a column takes 2, the third overflows.
    let spec = parse_problem("100x100F::60x40/3").expect("parse");
    let problem = expand_problem(&spec);
    let first = decode(&problem, &spec, &vec![vec![gg(0, 3)]]);

    let spec = parse_spec("100x100F:0:60x40/3").expect("parse");
    let problem = expand_problem(&spec);
    let second = gslas::decoder::decode(&problem, &spec, &vec![gg(0, 3)]);

    for sol in [first, second] {
        assert_eq!(sol.sheets_used(), 2);
        assert_eq!(sol.placements.len(), 3);
        let at = |i: usize| {
            (sol.placements[i].x, sol.placements[i].y, sol.placements[i].sheet_idx)
        };
        assert_eq!(at(0), (0, 0, 0));
        assert_eq!(at(1), (0, 40, 0));
        assert_eq!(at(2), (0, 0, 1));
    }
}

#[test]
fn decoder_selector_steers_strip_to_different_rect() {
    // Sheet 200×100. Type 1 (B): 1×(100×100). Type 0 (A): 2×(90×100).
    // The first selector steers A's first batch onto B's right leftover.
    let spec = parse_problem("200x100F::90x100/2,100x100/1").expect("parse");
    let problem = expand_problem(&spec);
    let first = decode(&problem, &spec, &vec![vec![gg(1, 1), steered(0, vec![1, 0])]]);

    let spec = parse_spec("200x100F:0:90x100/2,100x100/1").expect("parse");
    let problem = expand_problem(&spec);
    let second =
        gslas::decoder::decode(&problem, &spec, &vec![gg(1, 1), steered(0, vec![1, 0])]);

    for sol in [first, second] {
        assert_eq!(sol.sheets_used(), 2);
        let b = sol.placements.iter().find(|p| p.piece_idx == 2).unwrap(); // type 1
        assert_eq!((b.x, b.y, b.sheet_idx), (0, 0, 0));
        let a0 = sol.placements.iter().find(|p| p.piece_idx == 0).unwrap(); // first of type 0
        assert_eq!((a0.x, a0.y, a0.sheet_idx), (100, 0, 0));
        let a1 = sol.placements.iter().find(|p| p.piece_idx == 1).unwrap(); // second of type 0
        assert_eq!(a1.sheet_idx, 1);
    }
}

#[test]
fn four_pieces_two_rows() {
    // Sheet 200×200, one type: 4×(100×100) - exact 2x2 grid, no leftover hole.
    let spec = parse_problem("200x200F::100x100/4").expect("parse");
    let problem = expand_problem(&spec);
    let sol = decode(&problem, &spec, &vec![vec![gg(0, 4)]]);
    assert_eq!(sol.sheets_used(), 1);
    assert_eq!(sol.placements.len(), 4);
    let f = |idx: usize| sol.placements.iter().find(|p| p.piece_idx == idx).unwrap();
    assert_eq!((f(0).x, f(0).y), (0, 0));
    assert_eq!((f(1).x, f(1).y), (100, 0));
    assert_eq!((f(2).x, f(2).y), (0, 100));
    assert_eq!((f(3).x, f(3).y), (100, 100));
}

#[test]
fn five_pieces_grid_hole_reused_by_next_gene() {
    // Sheet 300×400, one type: 5×(100×100): rows of three leave a corner hole and a bottom
    // strip.
    let spec = parse_problem("300x400F::100x100/5").expect("parse");
    let problem = expand_problem(&spec);
    let sol = decode(&problem, &spec, &vec![vec![gg(0, 5)]]);
    assert_eq!(sol.sheets_used(), 1);
    assert_eq!(sol.placements.len(), 5);
    let f = |idx: usize| sol.placements.iter().find(|p| p.piece_idx == idx).unwrap();
    assert_eq!((f(0).x, f(0).y), (0, 0));
    assert_eq!((f(1).x, f(1).y), (100, 0));
    assert_eq!((f(2).x, f(2).y), (200, 0));
    assert_eq!((f(3).x, f(3).y), (0, 100));
    assert_eq!((f(4).x, f(4).y), (100, 100));

    let errors = validate_solution(&problem, &sol);
    assert!(errors.is_empty(), "{errors:?}");

    let bottom = sol
        .leftovers
        .iter()
        .find(|r| (r.x, r.y, r.w, r.h) == (0, 200, 300, 200))
        .expect("bottom leftover from the outer split");
    assert_eq!(bottom.sheet_idx, 0);
    let hole = sol
        .leftovers
        .iter()
        .find(|r| (r.x, r.y, r.w, r.h) == (200, 100, 100, 100))
        .expect("corner hole left by the partial grid row");
    assert_eq!(hole.sheet_idx, 0);

    // A rotatable gene of the same size, steered at the hole, fills it exactly.
    let spec2 = parse_problem("300x400F::100x100/5,100x100/1r").expect("parse");
    let problem2 = expand_problem(&spec2);
    let sol2 = decode(&problem2, &spec2, &vec![vec![gg(0, 5), steered(1, vec![1])]]);
    assert_eq!(sol2.sheets_used(), 1);
    assert_eq!(sol2.placements.len(), 6);
    let p5 = sol2.placements.iter().find(|p| p.piece_idx == 5).unwrap(); // type 1
    assert_eq!((p5.x, p5.y, p5.sheet_idx), (200, 100, 0));

    let errors2 = validate_solution(&problem2, &sol2);
    assert!(errors2.is_empty(), "{errors2:?}");
}

#[test]
fn strip_mixes_two_types() {
    // Sheet 350×100. Type A: 1×(150×100). Type B: 2×(100×80). B reuses A's right leftover.
    let spec = parse_problem("350x100F::150x100/1f,100x80/2f").expect("parse");
    let problem = expand_problem(&spec);
    let sol = decode(&problem, &spec, &vec![vec![gg(0, 1), gg(1, 2)]]);
    assert_eq!(sol.sheets_used(), 1);
    assert_eq!(sol.placements.len(), 3);
    let pa = sol.placements.iter().find(|p| p.piece_idx == 0).unwrap();
    assert_eq!(pa.sheet_idx, 0);
    assert!(sol.placements.iter().all(|p| p.sheet_idx == 0));
}

#[test]
fn strip_respects_height_constraint() {
    // The 200×200 piece fits no leftover of sheet 0, where the height left is 100.
    let spec = parse_problem("400x300F::400x200/1f,200x100/1f,200x200/1f").expect("parse");
    let problem = expand_problem(&spec);
    let sol = decode(&problem, &spec, &vec![vec![gg(0, 1), gg(1, 1), gg(2, 1)]]);
    let pb = sol.placements.iter().find(|p| p.piece_idx == 2).unwrap();
    assert_eq!(pb.sheet_idx, 1, "200×200 piece must go to a new sheet (fr_h=100 < ph=200)");
}

#[test]
fn pool_apply_batch_free_rects() {
    fn free_rects(pool: FreePool) -> Vec<(u32, u32, u32, u32)> {
        pool.into_free().iter().map(|fr| (fr.x, fr.y, fr.w, fr.h)).collect()
    }
    // Free rects after placing a 100x100 batch at (0,0): both leftovers in either
    // direction, exact fit, exact width, exact height.
    let cases = [
        (200, 300, false, vec![(100, 0, 100, 100), (0, 100, 200, 200)]),
        (200, 300, true, vec![(100, 0, 100, 300), (0, 100, 100, 200)]),
        (100, 100, false, vec![]),
        (100, 200, false, vec![(0, 100, 100, 100)]),
        (200, 100, false, vec![(100, 0, 100, 100)]),
    ];
    for (sheet_w, sheet_h, inverse, expected) in cases {
        let mut pool = FreePool::new(sheet_w, sheet_h);
        let (bx, by) = pool.apply_batch(0, 100, 100, inverse);
        assert_eq!((bx, by), (0, 0));
        let mut rects = free_rects(pool);
        rects.sort();
        let mut expected = expected;
        expected.sort();
        assert_eq!(rects, expected, "sheet {sheet_w}x{sheet_h} inverse={inverse}");
    }
}
