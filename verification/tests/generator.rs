use std::collections::HashSet;

use cut::cuts::{cut_pieces, weighted_sample};
use cut::generator::{cut_extent, generate, GeneratorConfig};
use cut::model::Sheet;
use rand::SeedableRng;
use rand_xoshiro::Xoshiro256StarStar;

fn rng(seed: u64) -> Xoshiro256StarStar {
    Xoshiro256StarStar::seed_from_u64(seed)
}

fn check(extent: u32, weights: &Vec<u32>, kerf: u32, min_size: u32, n: u64) {
    for seed in 0..n {
        let pieces = cut_pieces(extent, min_size, kerf, weights, &mut rng(seed));
        let n_cuts = pieces.len() as u32 - 1;
        let lead = &pieces[..pieces.len() - 1];
        assert!(lead.iter().all(|&p| p == lead[0]), "non-equal leading pieces: {pieces:?}");
        assert_eq!(pieces.iter().sum::<u32>() + n_cuts * kerf, extent, "wrong sum: {pieces:?}");
        assert!(pieces.iter().all(|&p| p >= min_size), "piece below min_size: {pieces:?}");
    }
}

#[test]
fn deterministic_cuts() {
    let a = cut_pieces(13, 2, 1, &vec![5, 3, 2], &mut rng(42));
    let b = cut_pieces(13, 2, 1, &vec![5, 3, 2], &mut rng(42));
    assert_eq!(a, b);
}

fn sampled() -> [u32; 3] {
    let weights = vec![1, 2, 1];
    let mut counts = [0u32; 3];
    for seed in 0..10_000 {
        counts[weighted_sample(&weights, &mut rng(seed))] += 1;
    }
    counts
}

#[test]
fn cuts_weighted_sample_distribution() {
    let counts = sampled();
    assert!(counts[1] > counts[0] * 3 / 2);
    assert!(counts[1] > counts[2] * 3 / 2);
}

#[test]
fn generator_weighted_sample_distribution() {
    let counts = sampled();
    assert!(counts[1] > counts[0] * 3 / 2);
    assert!(counts[1] > counts[2] * 3 / 2);
}

#[test]
fn example_3_pieces() {
    // choices: a=2 b=7, a=3 b=5, a=4 b=3
    let mut seen = HashSet::new();
    for seed in 0..1000 {
        let p = cut_pieces(13, 2, 1, &vec![0, 1], &mut rng(seed));
        assert_eq!(p.len(), 3);
        assert_eq!(p[0], p[1]);
        assert!(p.iter().all(|&x| x >= 2));
        assert_eq!(p.iter().sum::<u32>() + 2, 13);
        seen.insert(p[0]);
    }
    assert_eq!(seen, [2, 3, 4].into());
}

#[test]
fn fallback_when_infeasible() {
    // needs 2+1+2+1+2=8 > 7 -> falls back to 2 pieces: a in [2, 3, 4]
    let mut seen = HashSet::new();
    for seed in 0..200 {
        let p = cut_pieces(7, 2, 1, &vec![0, 1], &mut rng(seed));
        assert_eq!(p.len(), 2, "{p:?}");
        assert!(p.iter().all(|&x| x >= 2));
        seen.insert(p[0]);
    }
    assert_eq!(seen, [2, 3, 4].into());
}

#[test]
fn zero_cuts_single_piece() {
    for seed in 0..1000 {
        assert_eq!(cut_pieces(5, 3, 1, &vec![1], &mut rng(seed)), vec![5]);
    }
}

#[test]
fn tight_min_size() {
    // 1 cut -> 2 pieces: a in [4,4] -> b=4. Only [4,4].
    for seed in 0..1000 {
        assert_eq!(cut_pieces(9, 4, 1, &vec![1], &mut rng(seed)), vec![4, 4]);
    }
}

#[test]
fn zero_kerf() {
    check(20, &vec![1, 2, 3], 0, 3, 1000);
}

#[test]
fn large_kerf() {
    check(20, &vec![1, 1, 1], 3, 2, 1000);
}

fn sheet_10x8() -> Sheet {
    Sheet { width: 10, height: 8 }
}

fn cfg(kerf: u32, weights: Vec<u32>) -> GeneratorConfig {
    GeneratorConfig { sheet: sheet_10x8(), k: 2, min_size: 2, kerf, weights }
}

fn w_single() -> Vec<u32> {
    vec![1]
}

fn w_multi() -> Vec<u32> {
    vec![5, 3, 2]
}

#[test]
fn cut_extent_3_pieces() {
    // choices: a=2 b=7, a=3 b=5, a=4 b=3
    let mut seen = HashSet::new();
    for seed in 0..1000 {
        let p = cut_extent(13, 2, 1, &vec![0, 1], &mut rng(seed));
        assert_eq!(p.len(), 3);
        assert_eq!(p[0], p[1]);
        assert!(p.iter().all(|&x| x >= 2));
        assert_eq!(p.iter().sum::<u32>() + 2, 13);
        seen.insert(p[0]);
    }
    assert_eq!(seen, [2, 3, 4].into());
}

#[test]
fn cut_extent_fallback_when_infeasible() {
    let mut seen = HashSet::new();
    for seed in 0..200 {
        let p = cut_extent(7, 2, 1, &vec![0, 1], &mut rng(seed));
        assert_eq!(p.len(), 2, "{p:?}");
        assert!(p.iter().all(|&x| x >= 2));
        seen.insert(p[0]);
    }
    assert_eq!(seen, [2, 3, 4].into());
}

#[test]
fn cut_extent_corner_cases() {
    for seed in 0..1000 {
        let rng = &mut rng(seed);
        // zero cuts
        assert_eq!(cut_extent(5, 3, 1, &vec![1], rng), vec![5]);
        // 1 cut -> 2 pieces: a in [4,4] -> b=4. Only [4,4].
        assert_eq!(cut_extent(9, 4, 1, &vec![1], rng), vec![4, 4]);
    }
}

#[test]
fn pieces_tile_sheets_exactly_when_kerf_zero() {
    let mut rng = Xoshiro256StarStar::seed_from_u64(42);
    let out = generate(&cfg(0, w_single()), &mut rng);
    let total: u32 = out.problem.pieces.iter().map(|p| p.width * p.height).sum();
    assert_eq!(total, 10 * 8 * 2, "total piece area must equal total sheet area");
}

#[test]
fn pieces_are_less_than_sheet_area_when_kerf_nonzero() {
    let mut rng = Xoshiro256StarStar::seed_from_u64(66);
    let cfg = cfg(1, w_multi());
    let out = generate(&cfg, &mut rng);
    let total: u32 = out.problem.pieces.iter().map(|p| p.width * p.height).sum();
    let sheet_total = 10 * 8 * 2;
    assert!(
        total < sheet_total,
        "kerf>0: piece area ({total}) must be < sheet area ({sheet_total})"
    );
    assert_eq!(out.problem.kerf, 1);
}

#[test]
fn no_piece_exceeds_sheet() {
    let sheet = sheet_10x8();
    for kerf in [0, 1, 2] {
        let mut rng = Xoshiro256StarStar::seed_from_u64(7);
        let out = generate(
            &GeneratorConfig { sheet, k: 2, min_size: 1, kerf, weights: w_single() },
            &mut rng,
        );
        for pl in &out.optimal_solution.placements {
            let p = &out.problem.pieces[pl.piece_idx];
            assert!(pl.x + p.width <= sheet.width, "kerf={kerf}: piece {} too wide", p.name);
            assert!(pl.y + p.height <= sheet.height, "kerf={kerf}: piece {} too high", p.name);
        }
    }
}

#[test]
fn min_size_respected() {
    let mut rng = Xoshiro256StarStar::seed_from_u64(99);
    let c =
        GeneratorConfig { sheet: sheet_10x8(), k: 2, min_size: 2, kerf: 1, weights: w_single() };
    let out = generate(&c, &mut rng);
    for p in &out.problem.pieces {
        assert!(p.width >= c.min_size, "piece {} width  < min_size", p.name);
        assert!(p.height >= c.min_size, "piece {} height < min_size", p.name);
    }
}

#[test]
fn pieces_do_not_overlap() {
    for kerf in [0u32, 1] {
        let mut rng = Xoshiro256StarStar::seed_from_u64(123);
        let out = generate(
            &GeneratorConfig {
                sheet: sheet_10x8(),
                k: 2,
                min_size: 1,
                kerf,
                weights: w_single(),
            },
            &mut rng,
        );
        for sheet_idx in 0..2usize {
            let on: Vec<_> = out
                .optimal_solution
                .placements
                .iter()
                .filter(|pl| pl.sheet_idx == sheet_idx)
                .collect();
            for i in 0..on.len() {
                for j in i + 1..on.len() {
                    let (a, b) = (on[i], on[j]);
                    let ap = &out.problem.pieces[a.piece_idx];
                    let bp = &out.problem.pieces[b.piece_idx];
                    let overlap = a.x < b.x + bp.width
                        && a.x + ap.width > b.x
                        && a.y < b.y + bp.height
                        && a.y + ap.height > b.y;
                    assert!(
                        !overlap,
                        "kerf={kerf}: pieces {} and {} overlap on sheet {}",
                        a.piece_idx, b.piece_idx, sheet_idx
                    );
                }
            }
        }
    }
}

#[test]
fn seed_is_deterministic() {
    let c = cfg(1, vec![1, 1, 1]);
    let o1 = generate(&c, &mut Xoshiro256StarStar::seed_from_u64(42));
    let o2 = generate(&c, &mut Xoshiro256StarStar::seed_from_u64(42));
    let ids1: Vec<_> =
        o1.problem.pieces.iter().map(|p| (p.name.clone(), p.width, p.height)).collect();
    let ids2: Vec<_> =
        o2.problem.pieces.iter().map(|p| (p.name.clone(), p.width, p.height)).collect();
    assert_eq!(ids1, ids2);
}

#[test]
fn no_leftovers_in_optimal_solution() {
    let mut rng = Xoshiro256StarStar::seed_from_u64(42);
    let out = generate(&cfg(0, w_single()), &mut rng);
    assert!(out.optimal_solution.leftovers.is_empty());
}

#[test]
fn sheet_indices_are_zero_based() {
    let mut rng = Xoshiro256StarStar::seed_from_u64(42);
    let out = generate(
        &GeneratorConfig {
            sheet: sheet_10x8(),
            k: 3,
            min_size: 1,
            kerf: 0,
            weights: w_single(),
        },
        &mut rng,
    );
    let max_idx = out.optimal_solution.placements.iter().map(|p| p.sheet_idx).max().unwrap_or(0);
    assert_eq!(max_idx, 2);
}

#[test]
fn weights_fallback_when_count_exceeds_capacity() {
    // Sheet 4x4, min_size=2, kerf=1.
    let mut rng = Xoshiro256StarStar::seed_from_u64(0);
    let out = generate(
        &GeneratorConfig {
            sheet: Sheet { width: 4, height: 4 },
            k: 1,
            min_size: 2,
            kerf: 1,
            weights: vec![0, 0, 1], // always try 3 cuts first
        },
        &mut rng,
    );
    // Nothing but the whole sheet fits.
    assert_eq!(out.problem.pieces.len(), 1);
    let p = &out.problem.pieces[0];
    assert_eq!(p.width, 4);
    assert_eq!(p.height, 4);
}

#[test]
fn different_seeds_shuffle_and_cut_differently() {
    let c = cfg(0, w_multi());
    let sizes = |seed: u64| {
        generate(&c, &mut rng(seed))
            .problem
            .pieces
            .iter()
            .map(|p| (p.width, p.height))
            .collect::<Vec<_>>()
    };
    assert!((0..20).map(sizes).collect::<HashSet<_>>().len() > 1);
}

#[test]
fn generated_pieces_need_as_many_sheets_as_were_cut() {
    let out = generate(&cfg(0, w_multi()), &mut rng(5));
    let problem = cut::model::Problem {
        sheet: out.problem.sheet,
        pieces: out.problem.pieces,
    };
    assert_eq!(cut::exact::bpc::area_bound(&problem), 2);
}
