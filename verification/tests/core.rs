use dagsynth::config::{GenConfig, Strategy, SynthError};
use dagsynth::dag::{Task, TaskDag};
use dagsynth::stats::{
    calc_part, CpEntry, CpStatistic, GenEntry, LevelEntry, LevelGenerator, StatKind,
    StructStatistic,
};
use rand::SeedableRng;
use dagsynth::classify::{classify_graph, GraphClass};

fn task(deps: Vec<usize>, instance_cnt: u64, start_time: u64, end_time: u64) -> Task {
    Task {
        name: String::new(),
        deps,
        instance_cnt,
        flops: 0,
        start_time,
        end_time,
    }
}

/// A three-task chain: 0 -> 1 -> 2, instance counts 2, 4, 8, duration 10.
fn three_chain() -> TaskDag {
    let mut g = TaskDag::new();
    g.add_node(task(vec![], 2, 0, 10));
    g.add_node(task(vec![0], 4, 0, 10));
    g.add_node(task(vec![1], 8, 0, 10));
    g
}

/// A diamond: 0 -> 1, 0 -> 2, 1 -> 3, 2 -> 3.
fn diamond() -> TaskDag {
    let mut g = TaskDag::new();
    g.add_node(task(vec![], 2, 0, 10));
    g.add_node(task(vec![0], 4, 0, 20));
    g.add_node(task(vec![0], 6, 0, 30));
    g.add_node(task(vec![1, 2], 8, 0, 40));
    g
}

#[test]
fn calc_part_is_integer_division() {
    assert_eq!(calc_part(10, 3), 3);
    assert_eq!(calc_part(9, 3), 3);
    assert_eq!(calc_part(2, 3), 0);
}

#[test]
fn levels_of_diamond() {
    let g = diamond();
    let li = g.calc_levels().unwrap();
    assert_eq!(li.depths, vec![0, 1, 1, 2]);
    assert_eq!(li.levels, vec![0, 1, 1, 2]);
    assert_eq!(li.critical_path, 3);
}

#[test]
fn cycle_is_detected() {
    let mut g = TaskDag::new();
    g.add_node(task(vec![1], 1, 0, 1));
    g.add_node(task(vec![0], 1, 0, 1));
    assert!(matches!(g.calc_levels(), Err(SynthError::CycleDetected)));
}

#[test]
fn fit_three_chain_records_node_count() {
    let g = three_chain();
    let mut cp_ranges = CpStatistic::new();
    let mut level_distr = StructStatistic::new();
    let mut level_gen = LevelGenerator::new();
    let li = dagsynth::fit::fit_graph(&mut cp_ranges, &mut level_distr, &mut level_gen, &g, 100)
        .unwrap();
    assert_eq!(li.critical_path, 3);
    let entries = cp_ranges.into_entries();
    assert_eq!(entries.len(), 1);
    assert_eq!(entries[0].cp, 3);
    assert_eq!(entries[0].counts, vec![3]);
}

#[test]
fn synthesize_three_chain_reproduces_chain() {
    let g = three_chain();
    let mut cp_ranges = CpStatistic::new();
    let mut level_distr = StructStatistic::new();
    let mut level_gen = LevelGenerator::new();
    dagsynth::fit::fit_graph(&mut cp_ranges, &mut level_distr, &mut level_gen, &g, 100).unwrap();
    let cfg = GenConfig {
        min_cp: 3,
        max_cp: 4,
        sample_cnt: 1,
        max_inst_cnt: 100,
        ccr: 11,
        strategy: Strategy::Other,
        fix_isolated_intermediate: false,
    };
    let mut rng = rand::rngs::StdRng::seed_from_u64(7);
    let gd = dagsynth::synth::generate_one(&cp_ranges, &level_distr, &level_gen, &cfg, &mut rng, 3)
        .unwrap();
    assert_eq!(gd.cp, 3);
    assert_eq!(gd.dag.nodes.len(), 3);
    assert_eq!(gd.levels, vec![0, 1, 2]);
    assert_eq!(gd.dag.nodes[0].deps, Vec::<usize>::new());
    assert_eq!(gd.dag.nodes[1].deps, vec![0]);
    assert_eq!(gd.dag.nodes[2].deps, vec![1]);
    // Every bucket held exactly one observation, so costs are determined.
    assert_eq!(gd.dag.nodes[0].instance_cnt, 2);
    assert_eq!(gd.dag.nodes[1].instance_cnt, 4);
    assert_eq!(gd.dag.nodes[2].instance_cnt, 8);
    assert_eq!(gd.dag.nodes[0].flops, 10);
    assert_eq!(gd.dag.nodes[1].flops, 10);
    assert_eq!(gd.dag.nodes[2].flops, 10);
}

fn fit_population_of_diamonds() -> (CpStatistic, StructStatistic, LevelGenerator) {
    let mut cp_ranges = CpStatistic::new();
    let mut level_distr = StructStatistic::new();
    let mut level_gen = LevelGenerator::new();
    for _ in 0..3 {
        let g = diamond();
        dagsynth::fit::fit_graph(&mut cp_ranges, &mut level_distr, &mut level_gen, &g, 100)
            .unwrap();
    }
    (cp_ranges, level_distr, level_gen)
}

fn check_structure(gd: &dagsynth::synth::GeneratedDag, cfg: &GenConfig) {
    let n = gd.dag.nodes.len();
    assert_eq!(gd.levels.len(), n);
    for i in 0..n {
        assert!(gd.levels[i] < gd.cp);
        // Instance counts stay in [1, max_inst_cnt].
        assert!(gd.dag.nodes[i].instance_cnt >= 1);
        assert!(gd.dag.nodes[i].instance_cnt <= cfg.max_inst_cnt);
        for &d in gd.dag.nodes[i].deps.iter() {
            assert!(d < n);
            // Levels climb along every edge.
            assert!(gd.levels[d] < gd.levels[i]);
        }
    }
    // The seed chain pins the critical path.
    for i in 1..(gd.cp as usize) {
        assert!(gd.dag.nodes[i].deps.contains(&(i - 1)));
    }
}

#[test]
fn generated_graphs_keep_structure_other() {
    let (cp_ranges, level_distr, level_gen) = fit_population_of_diamonds();
    let cfg = GenConfig {
        min_cp: 3,
        max_cp: 4,
        sample_cnt: 20,
        max_inst_cnt: 100,
        ccr: 11,
        strategy: Strategy::Other,
        fix_isolated_intermediate: false,
    };
    let mut rng = rand::rngs::StdRng::seed_from_u64(42);
    let batch =
        dagsynth::synth::generate_batch(&cp_ranges, &level_distr, &level_gen, &cfg, &mut rng);
    assert!(batch.len() > 0);
    for gd in batch.iter() {
        check_structure(gd, &cfg);
        // No disconnected sinks: the last level always has dependencies.
        for i in 0..gd.dag.nodes.len() {
            if gd.levels[i] == gd.cp - 1 {
                assert!(gd.dag.nodes[i].deps.len() > 0);
            }
        }
    }
}

#[test]
fn generated_graphs_keep_structure_incr() {
    let (cp_ranges, level_distr, level_gen) = fit_population_of_diamonds();
    let cfg = GenConfig {
        min_cp: 3,
        max_cp: 4,
        sample_cnt: 10,
        max_inst_cnt: 100,
        ccr: 11,
        strategy: Strategy::Incr,
        fix_isolated_intermediate: false,
    };
    let mut rng = rand::rngs::StdRng::seed_from_u64(11);
    let batch =
        dagsynth::synth::generate_batch(&cp_ranges, &level_distr, &level_gen, &cfg, &mut rng);
    assert!(batch.len() > 0);
    for gd in batch.iter() {
        check_structure(gd, &cfg);
        // Forward growth builds a forward tree: the root has no dependency
        // and every other node exactly one, a level above its parent.
        assert_eq!(gd.dag.nodes[0].deps.len(), 0);
        for i in 1..gd.dag.nodes.len() {
            assert_eq!(gd.dag.nodes[i].deps.len(), 1);
            let p = gd.dag.nodes[i].deps[0];
            assert_eq!(gd.levels[p] + 1, gd.levels[i]);
        }
    }
}

#[test]
fn intermediate_isolation_repair_connects_all_levels() {
    let (cp_ranges, level_distr, level_gen) = fit_population_of_diamonds();
    let cfg = GenConfig {
        min_cp: 3,
        max_cp: 4,
        sample_cnt: 20,
        max_inst_cnt: 100,
        ccr: 11,
        strategy: Strategy::Other,
        fix_isolated_intermediate: true,
    };
    let mut rng = rand::rngs::StdRng::seed_from_u64(77);
    let batch =
        dagsynth::synth::generate_batch(&cp_ranges, &level_distr, &level_gen, &cfg, &mut rng);
    assert!(batch.len() > 0);
    for gd in batch.iter() {
        check_structure(gd, &cfg);
        for i in 0..gd.dag.nodes.len() {
            if gd.levels[i] >= 1 {
                assert!(gd.dag.nodes[i].deps.len() > 0);
            }
        }
    }
}

#[test]
fn generated_graphs_keep_structure_decr() {
    let (cp_ranges, level_distr, level_gen) = fit_population_of_diamonds();
    let cfg = GenConfig {
        min_cp: 3,
        max_cp: 4,
        sample_cnt: 10,
        max_inst_cnt: 100,
        ccr: 11,
        strategy: Strategy::Decr,
        fix_isolated_intermediate: false,
    };
    let mut rng = dagsynth::randsrc::rng_from_seed(23);
    let batch =
        dagsynth::synth::generate_batch(&cp_ranges, &level_distr, &level_gen, &cfg, &mut rng);
    assert!(batch.len() > 0);
    for gd in batch.iter() {
        check_structure(gd, &cfg);
        // Backward growth builds a reverse tree: no node has more than one
        // dependent, and every non-seed node has exactly one.
        let n = gd.dag.nodes.len();
        let mut dependents = vec![0usize; n];
        for i in 0..n {
            for &d in gd.dag.nodes[i].deps.iter() {
                dependents[d] += 1;
                // Every edge steps exactly one level.
                assert_eq!(gd.levels[d] + 1, gd.levels[i]);
            }
        }
        for x in 0..n {
            assert!(dependents[x] <= 1);
            if x >= gd.cp as usize {
                assert_eq!(dependents[x], 1);
            }
        }
    }
}

#[test]
fn exhausted_cp_distribution_stops_generation() {
    let cp_ranges = CpStatistic::new();
    let level_distr = StructStatistic::new();
    let level_gen = LevelGenerator::new();
    let cfg = GenConfig {
        min_cp: 5,
        max_cp: 7,
        sample_cnt: 4,
        max_inst_cnt: 100,
        ccr: 11,
        strategy: Strategy::Other,
        fix_isolated_intermediate: false,
    };
    let mut rng = rand::rngs::StdRng::seed_from_u64(1);
    let r = dagsynth::synth::generate_one(&cp_ranges, &level_distr, &level_gen, &cfg, &mut rng, 5);
    assert!(matches!(r, Err(SynthError::DistributionExhausted)));
    let batch =
        dagsynth::synth::generate_batch(&cp_ranges, &level_distr, &level_gen, &cfg, &mut rng);
    assert_eq!(batch.len(), 0);
}

#[test]
fn nearest_bucket_fallback_answers_unseen_keys() {
    let mut gen = LevelGenerator::new();
    gen.add_statistic(5, 2, StatKind::Childs, &vec![vec![], vec![7]]);
    let mut rng = rand::rngs::StdRng::seed_from_u64(3);
    // The exact key (5, 9, 4) was never seen; the draw falls back to the
    // nearest populated bucket for cp = 5.
    let v = gen.get_statistic(&mut rng, 5, 9, 4, StatKind::Childs).unwrap();
    assert_eq!(v, 7);
    // A different metric has no data at all for cp = 5.
    let e = gen.get_statistic(&mut rng, 5, 9, 4, StatKind::Deps);
    assert!(matches!(e, Err(SynthError::DistributionExhausted)));
}

#[test]
fn adjust_part_snaps_to_nearest_bucket() {
    let mut distr = StructStatistic::new();
    distr.add(5, 2, &vec![0, 1]);
    distr.add(5, 10, &vec![2, 3]);
    assert_eq!(distr.adjust_part(5, 3), Some(2));
    assert_eq!(distr.adjust_part(5, 9), Some(10));
    assert_eq!(distr.adjust_part(6, 3), None);
}

#[test]
fn store_round_trip_preserves_sampling() {
    let mut s = CpStatistic::new();
    s.add(5, 10);
    s.add(5, 12);
    s.add(6, 9);
    let mut reference = CpStatistic::new();
    reference.add(5, 10);
    reference.add(5, 12);
    reference.add(6, 9);
    let reloaded = dagsynth::stats::cp_store_round_trip(s);
    let mut r1 = rand::rngs::StdRng::seed_from_u64(99);
    let mut r2 = rand::rngs::StdRng::seed_from_u64(99);
    for _ in 0..16 {
        let a = reference.get_node_cnt(&mut r1, 5);
        let b = reloaded.get_node_cnt(&mut r2, 5);
        assert_eq!(a, b);
    }
    let ea = reference.into_entries();
    let eb = reloaded.into_entries();
    assert_eq!(ea.len(), eb.len());
    for (x, y) in ea.iter().zip(eb.iter()) {
        assert_eq!(x.cp, y.cp);
        assert_eq!(x.counts, y.counts);
    }
}

#[test]
fn level_and_metric_stores_round_trip() {
    let mut lv = StructStatistic::new();
    lv.add(4, 1, &vec![0, 1, 2, 3]);
    let lv2 = dagsynth::stats::lvl_store_round_trip(lv);
    let e = lv2.into_entries();
    assert_eq!(e.len(), 1);
    assert_eq!(e[0].cp, 4);
    assert_eq!(e[0].part, 1);
    assert_eq!(e[0].levels, vec![0, 1, 2, 3]);

    let mut gn = LevelGenerator::new();
    gn.add_statistic(4, 1, StatKind::Time, &vec![vec![10], vec![20]]);
    let gn2 = dagsynth::stats::gen_store_round_trip(gn);
    let e2 = gn2.into_entries();
    assert_eq!(e2.len(), 2);
    assert_eq!(e2[0].samples, vec![10]);
    assert_eq!(e2[1].samples, vec![20]);
}

#[test]
fn malformed_store_is_refused() {
    let dup = vec![
        CpEntry { cp: 5, counts: vec![7] },
        CpEntry { cp: 5, counts: vec![8] },
    ];
    assert!(matches!(CpStatistic::from_entries(dup), Err(SynthError::MalformedStore)));
    let low = vec![CpEntry { cp: 5, counts: vec![3] }];
    assert!(matches!(CpStatistic::from_entries(low), Err(SynthError::MalformedStore)));
    let bad_level = vec![LevelEntry { cp: 3, part: 1, levels: vec![3] }];
    assert!(matches!(
        StructStatistic::from_entries(bad_level),
        Err(SynthError::MalformedStore)
    ));
    let dup_gen = vec![
        GenEntry { cp: 3, part: 1, level: 0, kind: StatKind::Time, samples: vec![1] },
        GenEntry { cp: 3, part: 1, level: 0, kind: StatKind::Time, samples: vec![2] },
    ];
    assert!(matches!(
        LevelGenerator::from_entries(dup_gen),
        Err(SynthError::MalformedStore)
    ));
}

#[test]
fn classify_shapes() {
    let chain = three_chain();
    assert_eq!(classify_graph(&chain), GraphClass::Chain);

    let mut fwd = TaskDag::new();
    fwd.add_node(task(vec![], 1, 0, 1));
    fwd.add_node(task(vec![0], 1, 0, 1));
    fwd.add_node(task(vec![0], 1, 0, 1));
    assert_eq!(classify_graph(&fwd), GraphClass::ForwardTree);

    let mut rev = TaskDag::new();
    rev.add_node(task(vec![], 1, 0, 1));
    rev.add_node(task(vec![], 1, 0, 1));
    rev.add_node(task(vec![0, 1], 1, 0, 1));
    assert_eq!(classify_graph(&rev), GraphClass::ReverseTree);

    assert_eq!(classify_graph(&diamond()), GraphClass::Other);
}

#[test]
fn partition_drops_chains_and_splits_by_shape() {
    let mut fwd = TaskDag::new();
    fwd.add_node(task(vec![], 1, 0, 1));
    fwd.add_node(task(vec![0], 1, 0, 1));
    fwd.add_node(task(vec![0], 1, 0, 1));
    let dags = vec![three_chain(), fwd, diamond()];
    let (incr, decr, others) = dagsynth::classify::partition_graphs(dags);
    assert_eq!(incr.len(), 1);
    assert_eq!(decr.len(), 0);
    assert_eq!(others.len(), 1);
    assert_eq!(incr[0].nodes.len(), 3);
    assert_eq!(others[0].nodes.len(), 4);
}

#[test]
fn expansion_splits_tasks_into_instances() {
    let mut g = TaskDag::new();
    let mut t0 = task(vec![], 2, 0, 0);
    t0.flops = 100;
    let mut t1 = task(vec![0], 3, 0, 0);
    t1.flops = 100;
    g.add_node(t0);
    g.add_node(t1);
    let inst = g.convert_to_inst_dag(11);
    assert_eq!(inst.nodes.len(), 5);
    for k in 0..2 {
        assert_eq!(inst.nodes[k].task, 0);
        assert_eq!(inst.nodes[k].comp, 100);
        assert_eq!(inst.nodes[k].deps, Vec::<usize>::new());
    }
    for k in 2..5 {
        assert_eq!(inst.nodes[k].task, 1);
        assert_eq!(inst.nodes[k].comp, 100);
        assert_eq!(inst.nodes[k].deps, vec![0, 1]);
    }
    // Total computation 2*100 + 3*100 = 500; communication budget
    // 500 / 11 = 45, spread over 3 * 2 = 6 instance edges: 7 each.
    assert_eq!(inst.comm_volume, 7);
}

#[test]
fn expansion_without_edges_has_no_communication() {
    let mut g = TaskDag::new();
    let mut t0 = task(vec![], 2, 0, 0);
    t0.flops = 50;
    g.add_node(t0);
    let inst = g.convert_to_inst_dag(11);
    assert_eq!(inst.nodes.len(), 2);
    assert_eq!(inst.comm_volume, 0);
}

#[test]
fn standard_config_values() {
    let cfg = GenConfig::standard();
    assert_eq!(cfg.min_cp, 5);
    assert_eq!(cfg.max_cp, 7);
    assert_eq!(cfg.ccr, 11);
    assert_eq!(cfg.max_inst_cnt, 100);
}

fn find_gen<'a>(
    entries: &'a [GenEntry],
    cp: u32,
    part: u32,
    level: u32,
    kind: StatKind,
) -> &'a GenEntry {
    entries
        .iter()
        .find(|e| e.cp == cp && e.part == part && e.level == level && e.kind == kind)
        .expect("missing metric entry")
}

#[test]
fn fit_records_exact_metric_observations() {
    let g = diamond();
    let mut cp_ranges = CpStatistic::new();
    let mut level_distr = StructStatistic::new();
    let mut level_gen = LevelGenerator::new();
    dagsynth::fit::fit_graph(&mut cp_ranges, &mut level_distr, &mut level_gen, &g, 100).unwrap();
    let entries = level_gen.into_entries();
    // part = 4 / 3 = 1; levels are 0, 1, 1, 2.
    // Fan-out: node 0 feeds two nodes; 1 and 2 feed one each; 3 feeds none.
    assert_eq!(find_gen(&entries, 3, 1, 0, StatKind::Childs).samples, vec![2]);
    assert_eq!(find_gen(&entries, 3, 1, 1, StatKind::Childs).samples, vec![1, 1]);
    assert_eq!(find_gen(&entries, 3, 1, 2, StatKind::Childs).samples, vec![0]);
    // Fan-in.
    assert_eq!(find_gen(&entries, 3, 1, 0, StatKind::Deps).samples, vec![0]);
    assert_eq!(find_gen(&entries, 3, 1, 1, StatKind::Deps).samples, vec![1, 1]);
    assert_eq!(find_gen(&entries, 3, 1, 2, StatKind::Deps).samples, vec![2]);
    // Initial instance counts: only the source node.
    assert_eq!(find_gen(&entries, 3, 1, 0, StatKind::InstInit).samples, vec![2]);
    // Instance ratios: 4*10000/2, 6*10000/2, and 8*10000/((4+6)/2).
    assert_eq!(
        find_gen(&entries, 3, 1, 1, StatKind::InstPerc).samples,
        vec![20000, 30000]
    );
    assert_eq!(find_gen(&entries, 3, 1, 2, StatKind::InstPerc).samples, vec![16000]);
    // Heaviness 2*ins*dur/(ins+dur): 2*2*10/12 = 3 for the source.
    assert_eq!(find_gen(&entries, 3, 1, 0, StatKind::Heavy).samples, vec![3]);
    // Durations.
    assert_eq!(find_gen(&entries, 3, 1, 0, StatKind::Time).samples, vec![10]);
    assert_eq!(find_gen(&entries, 3, 1, 1, StatKind::Time).samples, vec![20, 30]);
    assert_eq!(find_gen(&entries, 3, 1, 2, StatKind::Time).samples, vec![40]);
}
