use cut::ga::{GaConfig, CERTAIN};
use cut::model::{PieceType, PlacementSpec, ProblemSpec, Sheet, SolutionSpec};
use cut::render::{render_svg, xml_escape};
use cut::report::{build_problem, results_html, ResultRow};
use cut::specs::can_normalize;
use cut::text::{append_rounded, append_tenths};
use cut::{parse, parse_compact};

#[test]
fn parse_full_example() {
    // R default: 4 rotatable + 4 fixed(f) + 4 rotatable + 2 rotatable + 1 rotatable = 15
    let p = parse::parse_problem(
        "3000x4000R:7:835x620-4,1020x620-4f,1020x620-4,1490x620-2,1750x900",
    )
    .unwrap();

    assert_eq!(p.sheet, Sheet { width: 3000, height: 4000 });
    assert_eq!(p.kerf, 7);
    assert_eq!(p.pieces.len(), 15);

    for i in 0..4 {
        assert_eq!(
            (p.pieces[i].width, p.pieces[i].height, p.pieces[i].can_rotate),
            (835, 620, true)
        );
    }
    for i in 4..8 {
        assert_eq!(
            (p.pieces[i].width, p.pieces[i].height, p.pieces[i].can_rotate),
            (1020, 620, false)
        );
    }
    for i in 8..12 {
        assert_eq!(
            (p.pieces[i].width, p.pieces[i].height, p.pieces[i].can_rotate),
            (1020, 620, true)
        );
    }
    for i in 12..14 {
        assert_eq!((p.pieces[i].width, p.pieces[i].height), (1490, 620));
    }
    assert_eq!((p.pieces[14].width, p.pieces[14].height), (1750, 900));
}

#[test]
fn parse_errors() {
    assert_eq!(parse::parse_problem("3000x4000 835x620").unwrap_err(), parse::ParseError::MissingSeparator);
    assert!(parse::parse_problem("3000x4000F:7:100x100").is_ok());
    assert_eq!(parse::parse_problem("3000x4000:100x100").unwrap_err(), parse::ParseError::MissingKerf);
    assert_eq!(
        parse::parse_problem("3000x4000F:abc:100x100").unwrap_err(),
        parse::ParseError::InvalidKerf("abc".into())
    );
    assert_eq!(
        parse::parse_problem("3000:0:100x100").unwrap_err(),
        parse::ParseError::InvalidSheet("3000".into())
    );
    assert_eq!(
        parse::parse_problem("0x4000F:0:100x100").unwrap_err(),
        parse::ParseError::InvalidSheet("0x4000F".into())
    );
    assert_eq!(
        parse::parse_problem("1000x500F:0:abc").unwrap_err(),
        parse::ParseError::InvalidPiece("abc".into())
    );
    assert_eq!(
        parse::parse_problem("1000x500F:0:100x0").unwrap_err(),
        parse::ParseError::InvalidPiece("100x0".into())
    );
}

#[test]
fn parse_error_for_a_number_names_the_part() {
    let e = parse::parse_problem("1000x500F:0:100x99999999999").unwrap_err();
    assert_eq!(e, parse::ParseError::InvalidInteger("100x99999999999".into()));
    assert_eq!(e.message(), "invalid integer in '100x99999999999'");
    assert_eq!(
        parse::ParseError::MissingKerf.message(),
        "missing kerf field (format: WxHR:kerf:pieces)"
    );
    assert_eq!(
        parse::ParseError::InvalidKerf("abc".into()).message(),
        "invalid kerf value 'abc': expected a non-negative integer"
    );
}

#[test]
fn parse_compact_full_example() {
    let tuple = |p: &PieceType| (p.width, p.height, p.count, p.can_rotate);
    let p = parse_compact::parse_problem(
        "3000x4000R:7,0:835x620/4,1020x620/4f,1020x620/4,1490x620/2,1750x900",
    )
    .unwrap();
    assert_eq!(p.sheet, Sheet { width: 3000, height: 4000 });
    assert_eq!(p.kerf, 7);
    assert_eq!(p.margin, 0);
    assert_eq!(p.piece_types.len(), 5);
    assert_eq!(p.piece_types.iter().map(|p| p.count).sum::<u32>(), 15);

    assert_eq!(tuple(&p.piece_types[0]), (620, 835, 4, true));
    assert_eq!(tuple(&p.piece_types[1]), (1020, 620, 4, false));
    assert_eq!(tuple(&p.piece_types[2]), (620, 1020, 4, true));
    assert_eq!(tuple(&p.piece_types[3]), (620, 1490, 2, true));
    assert_eq!(tuple(&p.piece_types[4]), (900, 1750, 1, true));
}

#[test]
fn kerf_margin_forms() {
    let p = parse_compact::parse_problem("3000x4000R:7,10:835x620/4").unwrap();
    assert_eq!(p.kerf, 7);
    assert_eq!(p.margin, 10);

    let p = parse_compact::parse_problem("3000x4000R::835x620").unwrap();
    assert_eq!(p.kerf, 0);
    assert_eq!(p.margin, 0);

    let p = parse_compact::parse_problem("8x100F :: 7x5/4 , 6x4/4 , 4x6/4 , 5x7/4").unwrap();
    assert_eq!(p.sheet.width, 8);
    assert_eq!(p.kerf, 0);
    assert_eq!(p.margin, 0);
    assert_eq!(p.piece_types.len(), 4);
    assert_eq!(p.piece_types.iter().map(|p| p.count).sum::<u32>(), 16);
}

#[test]
fn normalize_effects() {
    // 4x7/3r + 7x4/2r -> same canonical type (4x7r, min first), merged count=5
    // 7x4/4f stays as (7,4,false) - fixed, no swap
    let tuple = |p: &PieceType| (p.width, p.height, p.count, p.can_rotate);
    let p = parse_compact::parse_problem("10x10F::4x7/3r,7x4/2r,7x4/4f").unwrap();
    assert_eq!(p.piece_types.len(), 2);
    assert_eq!(tuple(&p.piece_types[0]), (4, 7, 5, true));
    assert_eq!(tuple(&p.piece_types[1]), (7, 4, 4, false));
}

#[test]
fn parse_compact_errors() {
    assert_eq!(parse_compact::parse_problem("3000x4000 835x620").unwrap_err(), parse_compact::ParseError::MissingSeparator);
    assert!(parse_compact::parse_problem("3000x4000F:7,0:100x100").is_ok());
    assert_eq!(parse_compact::parse_problem("3000x4000:100x100").unwrap_err(), parse_compact::ParseError::MissingKerfMargin);
    assert_eq!(
        parse_compact::parse_problem("3000x4000F:abc:100x100").unwrap_err(),
        parse_compact::ParseError::InvalidKerfMargin("abc".into())
    );
    assert_eq!(
        parse_compact::parse_problem("3000x4000F:7:100x100").unwrap_err(),
        parse_compact::ParseError::InvalidKerfMargin("7".into())
    );
    assert_eq!(
        parse_compact::parse_problem("3000x4000F:7,:100x100").unwrap_err(),
        parse_compact::ParseError::InvalidKerfMargin("7,".into())
    );
    assert_eq!(
        parse_compact::parse_problem("3000x4000F:,10:100x100").unwrap_err(),
        parse_compact::ParseError::InvalidKerfMargin(",10".into())
    );
    assert_eq!(
        parse_compact::parse_problem("3000::100x100").unwrap_err(),
        parse_compact::ParseError::InvalidSheet("3000".into())
    );
    assert_eq!(
        parse_compact::parse_problem("0x4000F::100x100").unwrap_err(),
        parse_compact::ParseError::InvalidSheet("0x4000F".into())
    );
    assert_eq!(
        parse_compact::parse_problem("1000x500F::abc").unwrap_err(),
        parse_compact::ParseError::InvalidPieceType("abc".into())
    );
    assert_eq!(
        parse_compact::parse_problem("1000x500F::100x0").unwrap_err(),
        parse_compact::ParseError::InvalidPieceType("100x0".into())
    );
}

#[test]
fn compact_error_messages_quote_the_part() {
    assert_eq!(
        parse_compact::parse_types("1000x500F::abc").unwrap_err().message(),
        "invalid piece type 'abc': expected WxH, WxH/N, WxHr, WxHf, WxH/Nr, or WxH/Nf"
    );
    assert_eq!(
        parse_compact::parse_types("x").unwrap_err().message(),
        "missing ':' separator (format: WxHR:kerf,margin:pieces)"
    );
}

#[test]
fn counts_that_do_not_add_up_are_noticed() {
    let spec = parse_compact::parse_types("10x10F::4x7/4294967295,4x7").unwrap();
    assert!(!can_normalize(&spec.piece_types));
    let spec = parse_compact::parse_types("10x10F::4x7/4294967294,4x7").unwrap();
    assert!(can_normalize(&spec.piece_types));
}

fn make_spec() -> ProblemSpec {
    ProblemSpec {
        sheet: Sheet { width: 100, height: 80 },
        kerf: 0,
        margin: 0,
        piece_types: vec![
            PieceType { name: "A".into(), width: 60, height: 40, count: 1, can_rotate: false },
            PieceType { name: "B".into(), width: 40, height: 40, count: 1, can_rotate: false },
        ],
    }
}

#[test]
fn multi_sheet_stacked_vertically() {
    let spec = make_spec();
    let solution = SolutionSpec {
        placements: vec![
            PlacementSpec { sheet_idx: 0, ptype_idx: 0, x: 0, y: 0, rotated: false },
            PlacementSpec { sheet_idx: 1, ptype_idx: 1, x: 0, y: 0, rotated: false },
        ],
        leftovers: vec![],
    };
    let svg = render_svg(&spec, &solution);
    assert!(svg.starts_with("<svg"));
    assert!(svg.ends_with("</svg>\n"));
    assert!(svg.contains(">A<"));
    assert!(svg.contains(">B<"));
    // scale=7, dw=700, dh=80*7=560, margin=max(28,8)=28, sep=6
    let dw = 700.0_f64;
    let scale = dw / spec.sheet.width as f64;
    let dh = spec.sheet.height as f64 * scale;
    let margin = (dw * 0.04_f64).max(8.0);
    let sep = 6.0_f64;
    let expected_w = margin * 2.0 + dw;
    let expected_h = margin * 2.0 + 2.0 * dh + sep;
    assert!(svg.contains(&format!("width=\"{:.0}\"", expected_w)));
    assert!(svg.contains(&format!("height=\"{:.0}\"", expected_h)));
}

#[test]
fn markup_in_names_is_escaped() {
    assert_eq!(xml_escape("a<b>&c"), "a&lt;b&gt;&amp;c");
    assert_eq!(xml_escape("стойка"), "стойка");
}

#[test]
fn settings_in_one_line() {
    let cfg = cut::ga::GaConfig { pop_size: 60, ..cut::ga::GaConfig::default() };
    assert_eq!(
        cfg.describe(),
        "pop=60 gens=1000 elite=2 k=3 crossover_p=0.80 swap_p=0.15 flip_p=0.05 point_p=0.10 \
         delta=1..=3 inverse_p=0.05 long_dim_threshold=0 large_area_threshold=0"
    );
}

#[test]
fn results_as_a_table() {
    let problem = parse::parse_problem("10x8R:2:3x2-2").unwrap();
    let row = |seed: u64| ResultRow {
        seed,
        sheets: 2,
        objective: 17,
        last_n: 1,
        summary: "a<b".into(),
    };
    let html = results_html(&problem, &vec![row(5), row(6)], 1_249);
    assert!(html.starts_with(
        "<p><b>Done in 1.2s</b> — 2 pieces on 10×8 sheet, kerf=2</p>\n<table><thead>"
    ));
    assert!(html.contains(
        "<tr><td>6</td><td>2</td><td>17</td><td>1</td><td>a&lt;b</td></tr>\n</tbody></table>\n"
    ));
    assert!(html.ends_with("<p>Best — seed=5  obj=17  sheets=2  last=1: a&lt;b</p>\n"));
}

#[test]
fn a_form_without_pieces_is_refused() {
    assert_eq!(build_problem(10, 8, 1, vec![]).unwrap_err(), "no pieces specified");
    let types = parse_compact::parse_types("1x1R::3x2,2x3").unwrap().piece_types;
    let spec = build_problem(10, 8, 1, types).unwrap();
    assert_eq!(spec.sheet, Sheet { width: 10, height: 8 });
    assert_eq!((spec.kerf, spec.margin), (1, 0));
    assert_eq!(spec.piece_types.len(), 1);
    assert_eq!(spec.piece_types[0].count, 2);
}

#[test]
fn copies_behind_a_slash_or_a_dash() {
    for text in [
        "3000x4000R:7:835x620/4,1020x620/4f,1750x900",
        "3000x4000R:7:835x620-4,1020x620-4f,1750x900",
    ] {
        let p = parse::parse_problem(text).unwrap();
        assert_eq!((p.sheet, p.kerf), (Sheet { width: 3000, height: 4000 }, 7));
        let sizes: Vec<(u32, u32, bool)> =
            p.pieces.iter().map(|q| (q.width, q.height, q.can_rotate)).collect();
        let mut expected = vec![(835, 620, true); 4];
        expected.extend(vec![(1020, 620, false); 4]);
        expected.push((1750, 900, true));
        assert_eq!(sizes, expected);
        let spec = parse::parse_types(text).unwrap();
        assert_eq!(spec.piece_types.iter().map(|t| t.count).collect::<Vec<_>>(), vec![4, 4, 1]);
    }
    assert_eq!(
        parse::parse_problem("10x10F:0:2x2/3-1").unwrap_err(),
        parse::ParseError::InvalidInteger("2x2/3-1".into())
    );
    assert_eq!(
        parse::parse_problem("10x10F:0:2x2/0").unwrap_err().message(),
        "invalid piece spec '2x2/0': expected WxH, WxH/N, WxHr, WxHf, WxH/Nr, or WxH/Nf (or -N for /N)"
    );
}

#[test]
fn ties_round_to_even() {
    let chance = |p: u64| GaConfig { crossover_p: p, ..GaConfig::default() }.describe();
    assert!(chance(CERTAIN / 8).contains("crossover_p=0.12 "));
    assert!(chance(CERTAIN / 8 * 3).contains("crossover_p=0.38 "));
    assert!(chance(CERTAIN).contains("crossover_p=1.00 "));
    let rounded = |n, d| {
        let mut out = String::new();
        append_rounded(&mut out, n, d);
        out
    };
    assert_eq!((rounded(1, 2), rounded(3, 2), rounded(5, 2)), ("0".into(), "2".into(), "2".into()));
    assert_eq!((rounded(4, 3), rounded(5, 3)), ("1".into(), "2".into()));
    let tenths = |n, d| {
        let mut out = String::new();
        append_tenths(&mut out, n, d);
        out
    };
    assert_eq!((tenths(700, 2800), tenths(3, 4)), ("0.2".into(), "0.8".into()));
}
