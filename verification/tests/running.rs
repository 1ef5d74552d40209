use cut::exact::bpc::BpcStatus;
use cut::exact::rounds::Bounds;
use cut::expand::expand_problem;
use cut::ga::GaConfig;
use cut::islands::draw_seeds;
use cut::model::{PlacementSpec, SolutionSpec};
use cut::parse_compact::parse_problem;
use cut::runner::{
    is_due, is_solvable, is_standing, run_algorithm, AlgConfig, Drain, GaKind, HeuristicKind,
    LazyDecode, PendingProgress, Report,
};
use cut::score::Objective;
use cut::slas::decoder::Gene;
use cut::transport::{
    bounds_message, done_message, figures_message, solution_message, status_message,
    CapturingSink, ProgressMessage,
};

#[test]
fn run_ga_produces_solution() {
    let spec = parse_problem("600x400R:0,0:200x200/4").unwrap();
    assert!(is_solvable(&spec));
    let cfg = GaConfig { pop_size: 20, iteration_count: 10, ..GaConfig::default() };
    let seeds = draw_seeds(1, 2);
    for kind in [GaKind::Glas, GaKind::Slas] {
        let alg_cfg = AlgConfig::Ga { kind, cfg, seeds: seeds.clone(), progress_interval: 0 };
        let results = run_algorithm(&spec, &alg_cfg);
        assert!(!results.is_empty());
        let (_, objective, sol) = &results[0];
        assert_eq!(sol.sheets_used(), 1);
        assert_eq!(objective.sheets_used_int(), 1);
    }
}

#[test]
fn run_heuristic_sends_done_only() {
    let spec = parse_problem("600x400R:0,0:200x200/4").unwrap();
    assert!(is_standing(&expand_problem(&spec)));
    for kind in [HeuristicKind::Bfdh, HeuristicKind::Jylanki] {
        let results = run_algorithm(&spec, &AlgConfig::Heuristic { kind });
        assert_eq!(results.len(), 1);
        assert_eq!(results[0].0, 0);
        assert_eq!(results[0].2.sheets_used(), 1);
    }
}

#[test]
fn unsolvable_problems_are_told() {
    let solvable = |s: &str| is_solvable(&parse_problem(s).unwrap());
    assert!(solvable("100x100F:3,5:90x90"));
    assert!(!solvable("100x100F:3,5:91x90"));
    assert!(solvable("100x50R:0,0:50x100"));
    assert!(!solvable("100x50F:0,0:50x100"));
    assert!(!solvable("100x100F:0,50:1x1"));
    assert!(!solvable("4000000000x4000000000F:0,0:1x1"));
}

#[test]
fn lying_pieces_do_not_stand() {
    let spec = parse_problem("100x50R::100x40").unwrap();
    assert!(is_solvable(&spec));
    assert!(!is_standing(&expand_problem(&spec)));
}

fn report(generation: usize, area: u64) -> PendingProgress<usize> {
    PendingProgress {
        seed: 7,
        generation,
        objective: Objective {
            sheets_used: 1,
            last_sheet_area: area,
            layout_score: 0,
            drop_consolidation_score: 0,
        },
        lazy: generation,
    }
}

#[test]
fn the_best_report_waits_while_the_sink_is_busy() {
    let mut drain = Drain::new(1_000);
    assert!(matches!(drain.progress(report(1, 50), true), Report::Solution(p) if p.lazy == 1));
    assert!(matches!(drain.progress(report(2, 30), false), Report::Nothing));
    assert!(matches!(drain.progress(report(3, 40), false), Report::Nothing));
    assert!(matches!(drain.progress(report(4, 30), true), Report::Solution(p) if p.lazy == 2));
    assert!(drain.flush().is_none());
    assert!(matches!(drain.progress(report(5, 20), false), Report::Nothing));
    assert_eq!(drain.flush().unwrap().generation, 5);

    let mut open = Drain::new(0);
    assert!(matches!(open.progress(report(1, 50), false), Report::Figures(p) if p.lazy == 1));
    assert!(open.flush().is_none());
}

#[test]
fn sinks_are_ready_at_first_and_after_the_interval() {
    assert!(is_due(None, 1_000));
    assert!(!is_due(Some(999), 1_000));
    assert!(is_due(Some(1_000), 1_000));
}

fn solution(n: usize) -> SolutionSpec {
    SolutionSpec {
        placements: (0..n)
            .map(|k| PlacementSpec {
                sheet_idx: k,
                ptype_idx: 0,
                x: 0,
                y: 0,
                rotated: false,
            })
            .collect(),
        leftovers: vec![],
    }
}

#[test]
fn genomes_are_decoded_when_asked_for() {
    let spec = parse_problem("600x400R:0,0:200x200/4").unwrap();
    let genome = (0..4)
        .map(|i| Gene { piece_idx: i, rotate: false, point_selector: 0, inverse: false })
        .collect();
    let sol = LazyDecode::Slas(genome).decode(&spec);
    assert_eq!((sol.placements.len(), sol.sheets_used()), (4, 1));
    assert_eq!(LazyDecode::Ready(solution(3)).decode(&spec).sheets_used(), 3);
}

#[test]
fn messages_hold_the_figures() {
    let spec = parse_problem("200x200R:0,0:200x100/2").unwrap();
    let p = report(9, 50);
    match figures_message(&p) {
        ProgressMessage::Progress { generation, sheets_used, seed, solution, pieces, .. } => {
            assert_eq!((generation, sheets_used, seed), (9, 1, 7));
            assert!(solution.is_none() && pieces.is_none());
        }
        _ => panic!("a report"),
    }
    match solution_message(9, 7, &p.objective, solution(2), &spec) {
        ProgressMessage::Progress { solution, pieces, .. } => {
            assert_eq!(solution.unwrap().placements.len(), 2);
            assert_eq!(pieces.unwrap()[0].count, 2);
        }
        _ => panic!("a report"),
    }
    match done_message(7, &p.objective, solution(2), &spec) {
        ProgressMessage::Done { seed, sheets_used, cut_lengths, proven_optimal, .. } => {
            assert_eq!((seed, sheets_used, cut_lengths.len()), (7, 1, 2));
            assert_eq!(proven_optimal, None);
        }
        _ => panic!("a result"),
    }
    match status_message(&BpcStatus::Gap { lb: 1, ub: 2 }, solution(2), &spec) {
        ProgressMessage::Done { seed, sheets_used, proven_optimal, .. } => {
            assert_eq!((seed, sheets_used, proven_optimal), (0, 2, Some(false)));
        }
        _ => panic!("a result"),
    }
    let bounds = bounds_message(&Bounds { iteration: 3, lb: 1, ub: 2 });
    assert!(matches!(bounds, ProgressMessage::BpcProgress { iteration: 3, lb: 1, ub: 2 }));
}

#[test]
fn a_capturing_sink_keeps_the_result() {
    let spec = parse_problem("200x200R:0,0:200x100/2").unwrap();
    let mut sink = CapturingSink::default();
    sink.send(&figures_message(&report(9, 50)));
    assert!(sink.solution.is_none());
    sink.send(&done_message(7, &report(9, 50).objective, solution(2), &spec));
    sink.send(&ProgressMessage::Error { message: String::new() });
    assert_eq!(sink.solution.unwrap().placements.len(), 2);
}
