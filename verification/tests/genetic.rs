use cut::expand::expand_problem;
use cut::ga::{
    self, run_ga, select_elite, tournament_select, GaConfig, GaDecoder, Individual, CERTAIN,
};
use cut::glas::ga::GlasDecoder;
use cut::islands;
use cut::model::validate_solution;
use cut::parse::parse_spec;
use cut::parse_compact::parse_problem;
use cut::score::Objective;
use cut::slas::decoder::Gene;
use cut::slas::ga::SlasDecoder;
use cut::small::{Inverses, Selectors};
use cut::{glas, slas};
use rand::{Rng, SeedableRng};
use rand_xoshiro::Xoshiro256StarStar;

/// A chance in parts of `CERTAIN`.
fn chance(p: f64) -> u64 {
    (p * CERTAIN as f64).ceil() as u64
}

fn rng(seed: u64) -> Xoshiro256StarStar {
    Xoshiro256StarStar::seed_from_u64(seed)
}

fn ind(objective: Objective) -> Individual<()> {
    Individual { genome: (), objective }
}

/// More consolidation is better.
fn drops(dc: u64) -> Objective {
    Objective {
        sheets_used: 0,
        last_sheet_area: 0,
        layout_score: 0,
        drop_consolidation_score: dc,
    }
}

/// Less area on the last sheet is better.
fn area(la: u64) -> Objective {
    Objective {
        sheets_used: 0,
        last_sheet_area: la,
        layout_score: 0,
        drop_consolidation_score: 0,
    }
}

#[test]
fn ga_tournament_full_k_returns_best() {
    let pop = vec![ind(drops(30)), ind(drops(10)), ind(drops(20))];
    let winner = tournament_select(&pop, 3, &mut rng(1));
    assert_eq!(
        (winner.objective.sheets_used_int(), winner.objective.drop_consolidation_score),
        (0, 20)
    );
    let pop = vec![ind(area(30)), ind(area(10)), ind(area(20))];
    let winner = tournament_select(&pop, 3, &mut rng(1));
    assert_eq!((winner.objective.sheets_used_int(), winner.objective.last_sheet_area), (0, 10));
}

#[test]
fn ga_tournament_is_deterministic() {
    let pop = vec![ind(drops(5)), ind(drops(3)), ind(drops(8)), ind(drops(1))];
    let w1 = tournament_select(&pop, 2, &mut rng(42));
    let w2 = tournament_select(&pop, 2, &mut rng(42));
    assert_eq!(w1.objective, w2.objective);
    let pop = vec![ind(area(5)), ind(area(3)), ind(area(8)), ind(area(1))];
    let w1 = tournament_select(&pop, 2, &mut rng(42));
    let w2 = tournament_select(&pop, 2, &mut rng(42));
    assert_eq!(w1.objective, w2.objective);
}

#[test]
fn ga_elite_returns_best() {
    let pop = vec![ind(drops(30)), ind(drops(10)), ind(drops(20))];
    let elite = select_elite(&pop, 1);
    assert_eq!(elite.len(), 1);
    assert_eq!(
        (elite[0].objective.sheets_used_int(), elite[0].objective.drop_consolidation_score),
        (0, 30)
    );
    let pop = vec![ind(area(30)), ind(area(10)), ind(area(20))];
    let elite = select_elite(&pop, 1);
    assert_eq!(elite.len(), 1);
    assert_eq!(
        (elite[0].objective.sheets_used_int(), elite[0].objective.last_sheet_area),
        (0, 10)
    );
}

#[test]
fn ga_elite_top_k_sorted() {
    let pop = vec![ind(drops(50)), ind(drops(10)), ind(drops(30)), ind(drops(20))];
    let elite = select_elite(&pop, 2);
    assert_eq!(
        elite
            .iter()
            .map(|e| (e.objective.sheets_used_int(), e.objective.drop_consolidation_score))
            .collect::<Vec<_>>(),
        [(0, 50), (0, 30)]
    );
    let pop = vec![ind(area(50)), ind(area(10)), ind(area(30)), ind(area(20))];
    let elite = select_elite(&pop, 2);
    assert_eq!(
        elite
            .iter()
            .map(|e| (e.objective.sheets_used_int(), e.objective.last_sheet_area))
            .collect::<Vec<_>>(),
        [(0, 10), (0, 20)]
    );
}

#[test]
fn ga_elite_n_exceeds_pop() {
    let pop = vec![ind(drops(5)), ind(drops(3))];
    let elite = select_elite(&pop, 10);
    assert_eq!(elite.len(), 2);
    assert_eq!(
        (elite[0].objective.sheets_used_int(), elite[0].objective.drop_consolidation_score),
        (0, 5)
    );
    let pop = vec![ind(area(5)), ind(area(3))];
    let elite = select_elite(&pop, 10);
    assert_eq!(elite.len(), 2);
    assert_eq!(
        (elite[0].objective.sheets_used_int(), elite[0].objective.last_sheet_area),
        (0, 3)
    );
}

fn small_config() -> GaConfig {
    GaConfig {
        pop_size: 20,
        iteration_count: 10,
        elite_count: 1,
        tournament_size: 2,
        crossover_p: chance(0.8),
        swap_p: chance(0.1),
        point_p: chance(0.05),
        ..GaConfig::default()
    }
}

fn g(piece_idx: usize) -> Gene {
    Gene { piece_idx, rotate: false, point_selector: 0, inverse: false }
}

fn ids(genome: &slas::decoder::Genome) -> Vec<usize> {
    genome.iter().map(|g| g.piece_idx).collect()
}

fn sorted_ids(genome: &slas::decoder::Genome) -> Vec<usize> {
    let mut v = ids(genome);
    v.sort_unstable();
    v
}

fn gg(type_idx: usize, count: usize) -> glas::decoder::Gene {
    glas::decoder::Gene {
        type_idx,
        rotate: false,
        selectors: Selectors::of(&vec![0u32; count]),
        inverses: Inverses::of(&vec![false; count]),
    }
}

type GlasGenome = glas::decoder::Genome;

fn one_class(genes: Vec<glas::decoder::Gene>) -> GlasGenome {
    vec![genes]
}

fn type_ids_flat(v: &[glas::decoder::Gene]) -> Vec<usize> {
    v.iter().map(|g| g.type_idx).collect()
}

fn type_ids(genome: &GlasGenome) -> Vec<usize> {
    genome.iter().flat_map(|c| c.iter()).map(|g| g.type_idx).collect()
}

fn sorted_type_ids(genome: &GlasGenome) -> Vec<usize> {
    let mut v = type_ids(genome);
    v.sort_unstable();
    v
}

/// All that the genes of a genome say.
fn told(genome: &GlasGenome) -> Vec<Vec<(usize, bool, Vec<u32>, Vec<bool>)>> {
    genome
        .iter()
        .map(|c| {
            c.iter()
                .map(|g| (g.type_idx, g.rotate, g.selectors.to_values(), g.inverses.to_values()))
                .collect()
        })
        .collect()
}

#[test]
fn ga_mutate_preserves_permutation() {
    let n = 8;
    let mut genome: slas::decoder::Genome = (0..n).map(g).collect();
    slas::ga::mutate(&mut genome, CERTAIN, CERTAIN, CERTAIN, (1, 3), CERTAIN, &mut rng(1));
    assert_eq!(sorted_ids(&genome), (0..n).collect::<Vec<_>>());

    let mut genome = one_class((0..4).map(|i| gg(i, 2)).collect());
    glas::ga::mutate(&mut genome, CERTAIN, 0, 0, (1, 3), 0, &mut rng(1));
    assert_eq!(sorted_type_ids(&genome), vec![0, 1, 2, 3]);
}

#[test]
fn ga_mutate_no_op_at_zero_prob() {
    let orig: slas::decoder::Genome = (0..5usize).map(g).collect();
    let mut genome = orig.clone();
    slas::ga::mutate(&mut genome, 0, 0, 0, (1, 3), 0, &mut rng(2));
    assert_eq!(genome, orig);

    let orig = one_class((0..4).map(|i| gg(i, 2)).collect());
    let mut genome = orig.clone();
    glas::ga::mutate(&mut genome, 0, 0, 0, (1, 3), 0, &mut rng(2));
    assert_eq!(told(&genome), told(&orig));
}

#[test]
fn ga_mutate_flips_all_rotate() {
    let mut genome: slas::decoder::Genome = (0..4).map(g).collect();
    slas::ga::mutate(&mut genome, 0, CERTAIN, 0, (1, 3), 0, &mut rng(3));
    assert!(genome.iter().all(|g| g.rotate));

    let mut genome = one_class((0..4).map(|i| gg(i, 2)).collect());
    glas::ga::mutate(&mut genome, 0, CERTAIN, 0, (1, 3), 0, &mut rng(3));
    assert!(genome.iter().flat_map(|c| c.iter()).all(|g| g.rotate));
}

#[test]
fn mutate_flips_all_inverse() {
    let mut genome: slas::decoder::Genome = (0..4).map(g).collect();
    slas::ga::mutate(&mut genome, 0, 0, 0, (1, 3), CERTAIN, &mut rng(3));
    assert!(genome.iter().all(|g| g.inverse));
}

#[test]
fn mutate_flips_all_inverses() {
    let mut genome = one_class((0..4).map(|i| gg(i, 2)).collect());
    glas::ga::mutate(&mut genome, 0, 0, 0, (1, 3), CERTAIN, &mut rng(4));
    let all_flipped = genome
        .iter()
        .flat_map(|c| c.iter())
        .flat_map(|g| g.inverses.to_values())
        .all(|v| v);
    assert!(all_flipped, "every inverse must have been flipped to true with inverse_p=1.0");
}

#[test]
fn mutate_nudges_all_selectors() {
    let orig = one_class((0..4).map(|i| gg(i, 3)).collect());
    let mut genome = orig.clone();
    glas::ga::mutate(&mut genome, 0, 0, CERTAIN, (1, 1), 0, &mut rng(5));
    let sels = |genome: &GlasGenome| {
        genome
            .iter()
            .flat_map(|c| c.iter())
            .flat_map(|g| g.selectors.to_values())
            .collect::<Vec<u32>>()
    };
    let (orig_sels, new_sels) = (sels(&orig), sels(&genome));
    assert_eq!(orig_sels.len(), new_sels.len());
    assert!(orig_sels.iter().zip(&new_sels).all(|(o, n)| o != n));
}

#[test]
fn ga_mutate_is_deterministic() {
    let (swap, flip, point, inverse) = (chance(0.3), chance(0.2), chance(0.2), chance(0.1));
    let orig: slas::decoder::Genome = (0..6usize).map(g).collect();
    let mut g1 = orig.clone();
    let mut g2 = orig.clone();
    slas::ga::mutate(&mut g1, swap, flip, point, (1, 3), inverse, &mut rng(42));
    slas::ga::mutate(&mut g2, swap, flip, point, (1, 3), inverse, &mut rng(42));
    assert_eq!(g1, g2);

    let orig = one_class((0..4).map(|i| gg(i, 2)).collect());
    let mut g1 = orig.clone();
    let mut g2 = orig.clone();
    glas::ga::mutate(&mut g1, swap, flip, point, (1, 3), inverse, &mut rng(42));
    glas::ga::mutate(&mut g2, swap, flip, point, (1, 3), inverse, &mut rng(42));
    assert_eq!(told(&g1), told(&g2));
}

#[test]
fn ga_random_genome_valid_permutation() {
    let spec = parse_spec("10x10R:0:3x2,4x3,2x2f,5x1").unwrap();
    let flat = expand_problem(&spec);
    let n = flat.pieces.len();
    let decoder = SlasDecoder { problem: &flat };
    let cfg = small_config();
    let mut random = rng(99);
    for _ in 0..20 {
        let genome = decoder.random_genome(&cfg, &mut random);
        assert_eq!(sorted_ids(&genome), (0..n).collect::<Vec<_>>());
    }

    let spec = parse_problem("10x10R::3x2/3,4x3/2,5x1/4").unwrap();
    let problem = expand_problem(&spec);
    let n_types = spec.piece_types.len();
    let decoder = GlasDecoder { spec: &spec, problem: &problem };
    let mut random = rng(99);
    for _ in 0..20 {
        let genome = decoder.random_genome(&cfg, &mut random);
        let total: usize = genome.iter().map(|c| c.len()).sum();
        assert_eq!(total, n_types);
        assert_eq!(sorted_type_ids(&genome), (0..n_types).collect::<Vec<_>>());
    }
}

#[test]
fn ga_random_genome_is_deterministic() {
    let spec = parse_spec("10x10R:0:3x2,4x3,2x2f").unwrap();
    let flat = expand_problem(&spec);
    let decoder = SlasDecoder { problem: &flat };
    let cfg = small_config();
    let g1 = decoder.random_genome(&cfg, &mut rng(7));
    let g2 = decoder.random_genome(&cfg, &mut rng(7));
    assert_eq!(g1, g2);

    let spec = parse_problem("10x10R::3x2/3,4x3/2").unwrap();
    let problem = expand_problem(&spec);
    let decoder = GlasDecoder { spec: &spec, problem: &problem };
    let g1 = decoder.random_genome(&cfg, &mut rng(7));
    let g2 = decoder.random_genome(&cfg, &mut rng(7));
    assert_eq!(told(&g1), told(&g2));
}

#[test]
fn ga_cx_known() {
    let p1: slas::decoder::Genome = (0..5usize).map(g).collect();
    let p2: slas::decoder::Genome = [3, 0, 4, 1, 2].into_iter().map(g).collect();
    let (c1, c2) = slas::ga::cx_crossover(&p1, &p2);
    assert_eq!(ids(&c1), [0, 1, 4, 3, 2]);
    assert_eq!(ids(&c2), [3, 0, 2, 1, 4]);

    let p1 = one_class((0..5).map(|i| gg(i, 1)).collect());
    let p2 = one_class([3usize, 0, 4, 1, 2].into_iter().map(|i| gg(i, 1)).collect());
    let (c1, c2) = glas::ga::cx_crossover(&p1, &p2, 5);
    assert_eq!(type_ids(&c1), [0, 1, 4, 3, 2]);
    assert_eq!(type_ids(&c2), [3, 0, 2, 1, 4]);
}

#[test]
fn ga_cx_produces_valid_permutations() {
    let n = 7;
    let p1: slas::decoder::Genome = (0..n).map(g).collect();
    let p2: slas::decoder::Genome = [6, 2, 4, 0, 3, 5, 1].into_iter().map(g).collect();
    let (c1, c2) = slas::ga::cx_crossover(&p1, &p2);
    assert_eq!(sorted_ids(&c1), (0..n).collect::<Vec<_>>());
    assert_eq!(sorted_ids(&c2), (0..n).collect::<Vec<_>>());

    let p1 = one_class((0..n).map(|i| gg(i, 1)).collect());
    let p2 = one_class([6usize, 2, 4, 0, 3, 5, 1].into_iter().map(|i| gg(i, 1)).collect());
    let (c1, c2) = glas::ga::cx_crossover(&p1, &p2, n);
    assert_eq!(sorted_type_ids(&c1), (0..n).collect::<Vec<_>>());
    assert_eq!(sorted_type_ids(&c2), (0..n).collect::<Vec<_>>());
}

#[test]
fn cx_identity_parent_gives_self() {
    let n = 6;
    let p1: slas::decoder::Genome = (0..n).map(g).collect();
    let p2: slas::decoder::Genome = [5, 4, 3, 2, 1, 0].into_iter().map(g).collect();
    let (c1, c2) = slas::ga::cx_crossover(&p1, &p2);
    assert_eq!(sorted_ids(&c1), (0..n).collect::<Vec<_>>());
    assert_eq!(sorted_ids(&c2), (0..n).collect::<Vec<_>>());
    let (c1, c2) = slas::ga::cx_crossover(&p1, &p1);
    assert_eq!(c1, p1);
    assert_eq!(c2, p1);
}

#[test]
fn ga_ox_at_known() {
    let p1: slas::decoder::Genome = (0..5usize).map(g).collect();
    let p2: slas::decoder::Genome = [3, 0, 4, 1, 2].into_iter().map(g).collect();
    let (c1, c2) = slas::ga::ox_at(&p1, &p2, 1, 3);
    assert_eq!(ids(&c1), [4, 1, 2, 3, 0]);
    assert_eq!(ids(&c2), [2, 0, 4, 3, 1]);

    let p1 = (0..5).map(|i| gg(i, 1)).collect::<Vec<_>>();
    let p2 = [3usize, 0, 4, 1, 2].into_iter().map(|i| gg(i, 1)).collect::<Vec<_>>();
    let (c1, c2) = glas::ga::ox_at(&p1, &p2, 1, 3, 5);
    assert_eq!(type_ids_flat(&c1), [4, 1, 2, 3, 0]);
    assert_eq!(type_ids_flat(&c2), [2, 0, 4, 3, 1]);
}

#[test]
fn ga_ox_produces_valid_permutations() {
    let n = 7;
    let p1: slas::decoder::Genome = (0..n).map(g).collect();
    let p2: slas::decoder::Genome = [6, 2, 4, 0, 3, 5, 1].into_iter().map(g).collect();
    let mut random = rng(42);
    for _ in 0..50 {
        let (c1, c2) = slas::ga::ox_crossover(&p1, &p2, &mut random);
        assert_eq!(sorted_ids(&c1), (0..n).collect::<Vec<_>>());
        assert_eq!(sorted_ids(&c2), (0..n).collect::<Vec<_>>());
    }

    let p1 = one_class((0..n).map(|i| gg(i, 1)).collect());
    let p2 = one_class([6usize, 2, 4, 0, 3, 5, 1].into_iter().map(|i| gg(i, 1)).collect());
    let mut random = rng(42);
    for _ in 0..50 {
        let (c1, c2) = glas::ga::ox_crossover(&p1, &p2, n, &mut random);
        assert_eq!(sorted_type_ids(&c1), (0..n).collect::<Vec<_>>());
        assert_eq!(sorted_type_ids(&c2), (0..n).collect::<Vec<_>>());
    }
}

#[test]
fn ox_gene_payload_travels_with_type_idx() {
    let mut p1 = (0..5).map(|i| gg(i, 2)).collect::<Vec<_>>();
    let mut p2 = (0..5).map(|i| gg(i, 2)).collect::<Vec<_>>();
    p1[2].selectors = Selectors::of(&vec![999, 888]);
    p2[2].selectors = Selectors::of(&vec![111, 222]);
    let (c1, _c2) = glas::ga::ox_at(&p1, &p2, 2, 3, 5);
    let gene2_in_c1 = c1.iter().find(|g| g.type_idx == 2).unwrap();
    let selectors = gene2_in_c1.selectors.to_values();
    assert_eq!(selectors[0], 999, "child must carry donor payload");
    assert_eq!(selectors[1], 888);
}

#[test]
fn ga_ox_is_deterministic() {
    let p1: slas::decoder::Genome = (0..5usize).map(g).collect();
    let p2: slas::decoder::Genome = [4, 3, 2, 1, 0].into_iter().map(g).collect();
    let (c1a, c2a) = slas::ga::ox_crossover(&p1, &p2, &mut rng(7));
    let (c1b, c2b) = slas::ga::ox_crossover(&p1, &p2, &mut rng(7));
    assert_eq!(c1a, c1b);
    assert_eq!(c2a, c2b);

    let p1 = one_class((0..5).map(|i| gg(i, 1)).collect());
    let p2 = one_class([4usize, 3, 2, 1, 0].into_iter().map(|i| gg(i, 1)).collect());
    let (c1a, c2a) = glas::ga::ox_crossover(&p1, &p2, 5, &mut rng(7));
    let (c1b, c2b) = glas::ga::ox_crossover(&p1, &p2, 5, &mut rng(7));
    assert_eq!(told(&c1a), told(&c1b));
    assert_eq!(told(&c2a), told(&c2b));
}

#[test]
fn ga_run_ga_smoke() {
    let spec = parse_spec("10x10R:0:3x2,4x3,2x2f,5x1").unwrap();
    let problem = expand_problem(&spec);
    let _best = slas::ga::run_ga(&problem, &small_config(), &mut rng(42));

    let spec = parse_problem("10x10R::3x2/2,4x3/2").unwrap();
    let problem = expand_problem(&spec);
    let _best = glas::ga::run_ga(&spec, &problem, &small_config(), &mut rng(42));
}

#[test]
fn ga_run_ga_is_deterministic() {
    let spec = parse_spec("10x10R:0:3x2,4x3,2x2f,5x1").unwrap();
    let problem = expand_problem(&spec);
    let b1 = slas::ga::run_ga(&problem, &small_config(), &mut rng(123));
    let b2 = slas::ga::run_ga(&problem, &small_config(), &mut rng(123));
    assert_eq!(b1.objective, b2.objective);
    assert_eq!(b1.genome, b2.genome);

    let spec = parse_problem("10x10R::3x2/2,4x3/2,2x2/3").unwrap();
    let problem = expand_problem(&spec);
    let b1 = glas::ga::run_ga(&spec, &problem, &small_config(), &mut rng(123));
    let b2 = glas::ga::run_ga(&spec, &problem, &small_config(), &mut rng(123));
    assert_eq!(b1.objective, b2.objective);
    assert_eq!(told(&b1.genome), told(&b2.genome));
}

#[test]
fn ga_run_ga_mt_is_deterministic() {
    let cfg = GaConfig { pop_size: 20, iteration_count: 30, ..GaConfig::default() };
    let seeds = vec![0u64, 1, 2];

    let spec = parse_spec("10x10R:0:3x2,4x3,2x2f,5x1").unwrap();
    let r1 = slas::ga::run_ga_mt(&spec, &cfg, &seeds, 10);
    let r2 = slas::ga::run_ga_mt(&spec, &cfg, &seeds, 10);
    assert_eq!(r1.len(), r2.len());
    for ((s1, i1), (s2, i2)) in r1.iter().zip(r2.iter()) {
        assert_eq!(s1, s2, "seed order differs");
        assert_eq!(i1.objective, i2.objective, "objective differs for seed {s1}");
        assert_eq!(i1.genome, i2.genome, "genome differs for seed {s1}");
    }

    let spec = parse_problem("10x10R::3x2/3,4x3/2,5x1/4").unwrap();
    let r1 = glas::ga::run_ga_mt(&spec, &cfg, &seeds, 10);
    let r2 = glas::ga::run_ga_mt(&spec, &cfg, &seeds, 10);
    assert_eq!(r1.len(), r2.len());
    for ((s1, i1), (s2, i2)) in r1.iter().zip(r2.iter()) {
        assert_eq!(s1, s2, "seed order differs");
        assert_eq!(i1.objective, i2.objective, "objective differs for seed {s1}");
        assert_eq!(told(&i1.genome), told(&i2.genome), "genome differs for seed {s1}");
    }
}

/// Solutions must be non-overlapping and in-bounds.
#[test]
fn ga_cut_promotion_solutions_are_valid() {
    let specs = [
        "15x35F:0:12x3/2,3x12/2,8x4/4r,7x5/4r,6x4/4r",
        "17x31F:0:12x3/2,3x12/2,8x4/4r,7x5/4r,6x4/4r",
        "22x24F:0:12x3/2,3x12/2,8x4/4r,7x5/4r,6x4/4r",
        "28x19F:0:12x3/2,3x12/2,8x4/4r,7x5/4r,6x4/4r",
    ];
    let cfg = GaConfig { pop_size: 50, iteration_count: 200, ..GaConfig::default() };
    for spec_str in specs {
        let problem = expand_problem(&parse_spec(spec_str).unwrap());
        for seed in 0u64..3 {
            let best = slas::ga::run_ga(&problem, &cfg, &mut rng(seed));
            let sol = slas::decoder::decode(&problem, &best.genome);
            let errors = validate_solution(&problem, &sol);
            assert!(
                errors.is_empty(),
                "spec={spec_str} seed={seed}: {} error(s):\n  {}",
                errors.len(),
                errors.join("\n  "),
            );
        }
    }
}

#[test]
fn chances_are_those_of_a_uniform_draw() {
    let mut one = rng(11);
    let mut other = rng(11);
    for _ in 0..200 {
        let v = (other.next_u64() >> 11) as f64 * (1.0 / (1u64 << 53) as f64);
        assert_eq!(ga::draw(&mut one, chance(0.3)), v < 0.3);
    }
    assert!((0..100).all(|_| ga::draw(&mut one, CERTAIN)));
    assert!((0..100).all(|_| !ga::draw(&mut one, 0)));
}

#[test]
fn default_configuration() {
    let spec = parse_problem("2600x1800F::400x400/6").unwrap();
    let cfg = GaConfig::new(&spec, 500, 60, 0, 0);
    assert_eq!((cfg.pop_size, cfg.iteration_count), (60, 500));
    assert_eq!((cfg.elite_count, cfg.tournament_size), (2, 3));
    assert_eq!(cfg.point_delta, (1, 3));
    assert_eq!(cfg.long_dim_threshold, (2600_f64 * 0.3) as u32);
    assert_eq!(cfg.large_area_threshold, (2600_f64 * 1800_f64 * 0.05).sqrt() as u32);
    assert_eq!(cfg.crossover_p, chance(0.80));
    assert_eq!(cfg.swap_p, chance(0.15));
    assert_eq!(cfg.flip_p, chance(0.05));
    assert_eq!(cfg.point_p, chance(0.10));
    assert_eq!(cfg.inverse_p, chance(0.05));
    let given = GaConfig::new(&spec, 500, 60, 7, 9);
    assert_eq!((given.large_area_threshold, given.long_dim_threshold), (7, 9));
}

#[test]
fn more_generations_are_never_worse() {
    let spec = parse_spec("22x24F:0:12x3/2,3x12/2,8x4/4r,7x5/4r,6x4/4r").unwrap();
    let problem = expand_problem(&spec);
    let decoder = SlasDecoder { problem: &problem };
    let mut last: Option<Objective> = None;
    for n in [0, 1, 5, 20] {
        let cfg = GaConfig { pop_size: 10, iteration_count: n, ..GaConfig::default() };
        let best = run_ga(&decoder, &cfg, &mut rng(3)).objective;
        if let Some(before) = last {
            assert!(!before.is_better(&best));
        }
        last = Some(best);
    }
}

#[test]
fn islands_come_out_best_first_and_alone_without_exchange() {
    let spec = parse_spec("22x24F:0:12x3/2,3x12/2,8x4/4r,7x5/4r,6x4/4r").unwrap();
    let problem = expand_problem(&spec);
    let decoder = SlasDecoder { problem: &problem };
    let cfg = GaConfig { pop_size: 10, iteration_count: 10, ..GaConfig::default() };
    let seeds = islands::draw_seeds(42, 3);
    let mut base = rng(42);
    assert_eq!(seeds, (0..3).map(|_| base.next_u64()).collect::<Vec<_>>());
    let results = islands::run_ga_mt(&decoder, &cfg, &seeds, 0);
    assert_eq!(results.len(), 3);
    for (a, b) in results.iter().zip(&results[1..]) {
        assert!(!b.1.objective.is_better(&a.1.objective));
    }
    for (seed, best) in &results {
        let alone = run_ga(&decoder, &cfg, &mut rng(*seed));
        assert_eq!(alone.genome, best.genome);
    }
}
