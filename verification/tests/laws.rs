//! What holds of the library as a whole, on concrete values.

use openchoice::catalog::Provider;
use openchoice::console::{Console, Outcome};
use openchoice::fit::{evaluate, evaluate_at, weights_mb};
use openchoice::float::Single;
use openchoice::pack::{pack, GgufSources, PackedMeasurement, SourceModel};
use openchoice::report::ReportBuf;
use openchoice::score::{at_least, better, score};
use openchoice::speed::{estimate_with_catalog, EstimateMethod};
use openchoice::{
    evaluate_model, lookup_gpu, recommend, Backend, Catalog, Filter, Hardware, KvQuant, Opts,
    Quant, RunMode, UseCase, Verdict,
};

fn source(name: &str, params: u64, prior: u8) -> SourceModel {
    SourceModel {
        name: name.to_string(),
        parameters_raw: Some(params),
        active_parameters: None,
        context_length: Some(32_768),
        hidden_size: None,
        num_hidden_layers: Some(32),
        num_key_value_heads: Some(8),
        head_dim: Some(128),
        vocab_size: None,
        is_moe: None,
        num_experts: None,
        capabilities: vec![],
        pipeline_tag: None,
        architecture: None,
        hf_downloads: None,
        gguf_sources: GgufSources::Absent,
        quality_prior: prior,
    }
}

fn machine(ram_mb: u32, vram_mb: u32) -> Hardware {
    Hardware {
        ram_mb,
        vram_mb,
        unified: false,
        backend: if vram_mb > 0 { Backend::Cuda } else { Backend::CpuX86 },
        gpu_bandwidth_gbps: 1000,
        ram_bandwidth_gbps: 0,
        tflops_fp16_x10: 1000,
        os_reserve_mb: 2048,
        hw_key: 0,
    }
}

fn bytes_of(models: &[SourceModel]) -> Vec<u8> {
    let list: Vec<&SourceModel> = models.iter().collect();
    pack(&list, &[], &[]).unwrap()
}

const QUANTS: [Quant; 7] = [
    Quant::F16,
    Quant::Q8_0,
    Quant::Q6K,
    Quant::Q5KM,
    Quant::Q4KM,
    Quant::Q3KM,
    Quant::Q2K,
];

#[test]
fn the_longest_pattern_names_the_card() {
    let desktop = lookup_gpu("NVIDIA GeForce RTX 4090").unwrap();
    let laptop = lookup_gpu("NVIDIA GeForce RTX 4090 Laptop GPU").unwrap();
    assert_eq!(desktop.0, 1008);
    assert!(laptop.0 < desktop.0);
    assert_eq!(lookup_gpu("nvidia geforce rtx 4090"), Some(desktop));
    assert_eq!(lookup_gpu("abacus"), None);
}

#[test]
fn an_exact_name_is_found_before_one_that_holds_it() {
    let bytes = bytes_of(&[source("org/llama-3-8b", 1, 0), source("LLAMA-3", 1, 0)]);
    let catalog = Catalog::parse(&bytes).unwrap();
    assert_eq!(catalog.find("llama-3").unwrap().index(), 1);
    assert_eq!(catalog.find("3-8B").unwrap().index(), 0);
    assert!(catalog.find("qwen").is_none());
    let mut walk = catalog.iter();
    assert_eq!(walk.remaining(), 2);
    assert_eq!(walk.next().unwrap().name(), "org/llama-3-8b");
    assert_eq!((walk.next().unwrap().index(), walk.remaining()), (1, 0));
    assert!(walk.next().is_none());
}

#[test]
fn corrupt_names_are_empty() {
    let mut bytes = bytes_of(&[source("name", 5_000_000, 0)]);
    bytes[48] = 200;
    assert_eq!(Catalog::parse(&bytes).unwrap().get(0).unwrap().name(), "");
    let mut bytes = bytes_of(&[source("name", 5_000_000, 0)]);
    bytes[81] = 0xff;
    assert_eq!(Catalog::parse(&bytes).unwrap().get(0).unwrap().name(), "");
}

#[test]
fn formats_go_by_number_and_by_name() {
    for (i, q) in QUANTS.iter().enumerate() {
        assert_eq!(q.code() as usize, i);
        assert_eq!(Quant::from_u8(q.code()), Some(*q));
        assert_eq!(Quant::parse(q.name()), Some(*q));
    }
    assert_eq!(Quant::from_u8(7), None);
    assert_eq!(Quant::hierarchy(), QUANTS);
    assert_eq!(Provider::from_u8(3).name(), "mlx");
}

#[test]
fn weights_grow_with_the_model_and_shrink_with_the_format() {
    for pair in QUANTS.windows(2) {
        assert!(weights_mb(8_000, pair[0]) >= weights_mb(8_000, pair[1]));
    }
    for q in QUANTS {
        assert!(weights_mb(7_000, q) <= weights_mb(8_000, q));
    }
    assert_eq!(weights_mb(8_030, Quant::F16), 15_316);
}

#[test]
fn the_cache_grows_with_context_and_precision() {
    let bytes = bytes_of(&[source("m", 8_000_000_000, 128)]);
    let catalog = Catalog::parse(&bytes).unwrap();
    let model = catalog.get(0).unwrap();
    let hw = machine(65_536, 24_576);
    let cache = |kv_quant: KvQuant, context: u32| {
        let opts = Opts { kv_quant, ..Opts::default() };
        evaluate_at(&model, &hw, &opts, Quant::Q8_0, context).memory.kv_cache_mb
    };
    assert_eq!(cache(KvQuant::F16, 8192), 1024);
    assert!(cache(KvQuant::F16, 4096) <= cache(KvQuant::F16, 8192));
    assert!(cache(KvQuant::Q4, 8192) <= cache(KvQuant::Q8, 8192));
    assert!(cache(KvQuant::Q8, 8192) <= cache(KvQuant::F16, 8192));
}

#[test]
fn verdicts_follow_from_how_full_the_pool_is() {
    let bytes = bytes_of(&[source("m", 8_000_000_000, 128)]);
    let catalog = Catalog::parse(&bytes).unwrap();
    let model = catalog.get(0).unwrap();
    let opts = Opts::default();
    let mut last = Verdict::TooTight;
    for vram in (9_000..40_000).step_by(500) {
        let fit = evaluate_at(&model, &machine(4096, vram), &opts, Quant::Q8_0, 8192);
        if fit.run_mode == RunMode::Gpu {
            assert!(fit.verdict >= last, "a larger pool is judged no worse");
            last = fit.verdict;
            assert!(fit.memory.resident_mb() <= vram, "never overfilled");
            let share = fit.memory.resident_mb() as f32 / vram as f32;
            let expected = if share <= 0.60 {
                Verdict::Perfect
            } else if share <= 0.85 {
                Verdict::Good
            } else if share <= 0.98 {
                Verdict::Marginal
            } else {
                Verdict::TooTight
            };
            assert_eq!(fit.verdict, expected);
        } else {
            assert!(fit.verdict <= Verdict::Good, "perfect is on the accelerator");
        }
        assert!(fit.usable_context <= model.context_length());
    }
    assert_eq!(last, Verdict::Perfect);
}

#[test]
fn bands_are_percentages() {
    let bytes = bytes_of(&[source("m", 8_000_000_000, 128)]);
    let catalog = Catalog::parse(&bytes).unwrap();
    let model = catalog.get(0).unwrap();
    for vram in 9000..16_000u32 {
        let fit = evaluate_at(&model, &machine(0, vram), &Opts::default(), Quant::Q8_0, 4096);
        let (taken, pool) = (fit.memory.resident_mb() as u64, fit.pool_mb as u64);
        if fit.run_mode == RunMode::Gpu {
            let expected = match 100 * taken {
                n if n <= 60 * pool => Verdict::Perfect,
                n if n <= 85 * pool => Verdict::Good,
                n if n <= 98 * pool => Verdict::Marginal,
                _ => Verdict::TooTight,
            };
            assert_eq!(fit.verdict, expected, "{taken} of {pool}");
        }
    }
}

#[test]
fn bands_of_large_pools_are_percentages() {
    let bytes = bytes_of(&[source("m", 600_000_000_000, 128)]);
    let catalog = Catalog::parse(&bytes).unwrap();
    let model = catalog.get(0).unwrap();
    let mut seen = [0u32; 4];
    for step in 0..4000u32 {
        let vram = 500_000 + 199 * step;
        let fit = evaluate_at(&model, &machine(0, vram), &Opts::default(), Quant::Q8_0, 4096);
        let (taken, pool) = (fit.memory.resident_mb() as i64, fit.pool_mb as i64);
        let hair = [60, 85, 98].iter().any(|p| {
            let limit = p * pool;
            (100 * taken - limit).abs() * 0x20_0000 <= limit
        });
        if fit.run_mode == RunMode::Gpu && !hair {
            let expected = match 100 * taken {
                n if n <= 60 * pool => Verdict::Perfect,
                n if n <= 85 * pool => Verdict::Good,
                n if n <= 98 * pool => Verdict::Marginal,
                _ => Verdict::TooTight,
            };
            assert_eq!(fit.verdict, expected, "{taken} of {pool}");
            seen[expected as usize] += 1;
        }
    }
    assert!(seen.iter().filter(|n| **n > 0).count() >= 3, "{seen:?}");
}

#[test]
fn what_is_too_tight_fits_in_no_format() {
    let bytes = bytes_of(&[source("m", 70_000_000_000, 128)]);
    let catalog = Catalog::parse(&bytes).unwrap();
    let model = catalog.get(0).unwrap();
    let hw = machine(8_192, 0);
    let fit = evaluate(&model, &hw, &Opts::default());
    assert_eq!((fit.verdict, fit.quant), (Verdict::TooTight, Quant::Q2K));
    for q in QUANTS {
        for context in [32_768, 16_384] {
            let at = evaluate_at(&model, &hw, &Opts::default(), q, context);
            assert!(!at.verdict.runnable());
        }
    }
}

#[test]
fn formats_above_the_cap_are_never_used() {
    let bytes = bytes_of(&[source("m", 1_000_000_000, 128)]);
    let catalog = Catalog::parse(&bytes).unwrap();
    let model = catalog.get(0).unwrap();
    for max_quant in QUANTS {
        let opts = Opts { max_quant, ..Opts::default() };
        let fit = evaluate(&model, &machine(65_536, 24_576), &opts);
        assert_eq!(fit.quant, max_quant, "the best that is allowed, where all fit");
    }
}

#[test]
fn reputation_moves_quality_little() {
    let low = source("low", 8_000_000_000, 0);
    let high = source("high", 8_000_000_000, 255);
    let bytes = bytes_of(&[low, high]);
    let catalog = Catalog::parse(&bytes).unwrap();
    let hw = machine(65_536, 24_576);
    let of = |i: usize| {
        evaluate_model(&catalog, &catalog.get(i).unwrap(), &hw, &Opts::default()).scores.quality
    };
    assert!(of(1) > of(0));
    assert!(of(1) - of(0) <= 30);
}

#[test]
fn scores_rise_with_context_and_speed() {
    let bytes = bytes_of(&[source("m", 8_000_000_000, 128)]);
    let catalog = Catalog::parse(&bytes).unwrap();
    let model = catalog.get(0).unwrap();
    let rec = evaluate_model(&catalog, &model, &machine(65_536, 24_576), &Opts::default());
    let (mut context, mut speed) = (0, 0);
    for step in 0..200u32 {
        let (mut fit, mut s) = (rec.fit, rec.speed);
        fit.usable_context = step * 256;
        s.decode_tps_x10 = step;
        let scores = score(&model, &fit, &s, UseCase::Coding);
        assert!(scores.context >= context && scores.speed >= speed);
        assert!(scores.quality <= 100 && scores.fit <= 100 && scores.composite <= 10_000);
        context = scores.context;
        speed = scores.speed;
    }
    assert_eq!(context, 100);
    for u in [500u16, 650, 800] {
        let mut fit = rec.fit;
        fit.utilization_pctx10 = u;
        assert_eq!(score(&model, &fit, &rec.speed, UseCase::General).fit, 100);
    }
}

#[test]
fn faster_scores_no_lower() {
    let bytes = bytes_of(&[source("m", 8_000_000_000, 128)]);
    let catalog = Catalog::parse(&bytes).unwrap();
    let model = catalog.get(0).unwrap();
    let rec = evaluate_model(&catalog, &model, &machine(65_536, 24_576), &Opts::default());
    let of = |decode_tps_x10: u32| {
        let mut s = rec.speed;
        s.decode_tps_x10 = decode_tps_x10;
        score(&model, &rec.fit, &s, UseCase::Coding).speed
    };
    assert_eq!((of(0), of(100), of(199)), (0, 42, 84));
    assert_eq!((of(200), of(600), of(u32::MAX)), (92, 95, 99));
    let mut before = 0;
    for fast in (0..4000u32).chain((4000..4_000_000).step_by(997)) {
        assert!(of(fast) >= before, "{fast}");
        before = of(fast);
    }
}

#[test]
fn larger_models_score_no_lower() {
    let million: Vec<u64> = vec![
        1, 30, 49, 50, 51, 60, 62, 63, 70, 99, 100, 101, 500, 999, 1000, 1001, 1500, 1990, 1999,
        2000, 2001, 3999, 4000, 7000, 7999, 8000, 15_999, 16_000, 32_000, 63_999, 64_000, 70_000,
    ];
    let models: Vec<SourceModel> = million
        .iter()
        .map(|n| source(&format!("m{n}"), n * 1_000_000, 128))
        .collect();
    let bytes = bytes_of(&models);
    let catalog = Catalog::parse(&bytes).unwrap();
    let first = catalog.get(0).unwrap();
    let rec = evaluate_model(&catalog, &first, &machine(65_536, 24_576), &Opts::default());
    let of = |n: u64, quant: Quant| {
        let at = million.iter().position(|m| *m == n).unwrap();
        let model = catalog.get(at).unwrap();
        assert_eq!(model.params_m() as u64, n);
        let mut fit = rec.fit;
        fit.quant = quant;
        score(&model, &fit, &rec.speed, UseCase::General).quality
    };
    for quant in QUANTS {
        for pair in million.windows(2) {
            assert!(of(pair[0], quant) <= of(pair[1], quant), "{pair:?}");
        }
    }
    // The curve starts at fifty million and runs on where a power of two begins.
    let f16 = |n: u64| of(n, Quant::F16);
    assert_eq!((f16(1), f16(50), f16(1000), f16(70_000)), (2, 2, 43, 100));
    assert_eq!((f16(1500), f16(1990), f16(2000), f16(4000)), (48, 52, 52, 61));
}

#[test]
fn the_experts_in_use_leave_room_for_context() {
    let mut moe = source("moe", 46_700_000_000, 128);
    moe.is_moe = Some(true);
    moe.active_parameters = Some(12_900_000_000);
    let bytes = bytes_of(&[moe]);
    let catalog = Catalog::parse(&bytes).unwrap();
    let model = catalog.get(0).unwrap();
    let at = |vram: u32, context: u32| {
        evaluate_at(&model, &machine(65_536, vram), &Opts::default(), Quant::Q4KM, context)
    };
    let fit = at(10_240, 8192);
    assert_eq!(fit.run_mode, RunMode::MoeOffload);
    assert_eq!((fit.memory.weights_mb, fit.memory.overhead_mb), (7427, 1488));
    assert_eq!((fit.memory.kv_cache_mb, fit.usable_context), (1024, 10_600));
    assert_eq!(at(24_576, 8192).usable_context, 32_768);
    for vram in (0..49_152).step_by(512) {
        for context in [512, 2048, 8192, 32_768, 65_536] {
            let fit = at(vram, context);
            if fit.verdict.runnable() {
                assert!(fit.usable_context >= context.min(32_768), "{vram} {context}");
            }
        }
    }
}

#[test]
fn unified_spills_run_at_the_bandwidth_of_the_part() {
    let bytes = bytes_of(&[source("m", 20_000_000_000, 128)]);
    let catalog = Catalog::parse(&bytes).unwrap();
    let model = catalog.get(0).unwrap();
    let with = |gpu: u16, ram: u16| {
        let mut hw = machine(49_152, 16_384);
        hw.unified = true;
        hw.backend = Backend::Metal;
        hw.gpu_bandwidth_gbps = gpu;
        hw.ram_bandwidth_gbps = ram;
        let rec = evaluate_model(&catalog, &model, &hw, &Opts::default());
        assert_eq!(rec.fit.run_mode, RunMode::UnifiedSpill);
        rec.speed.bandwidth_gbps
    };
    assert_eq!((with(200, 0), with(0, 0), with(200, 150), with(0, 150)), (200, 100, 150, 150));
}

#[test]
fn rescaling_goes_by_the_bits() {
    for (tps_x10, from, to, expected) in [
        (1000, Quant::Q4KM, Quant::Q8_0, 568),
        (1000, Quant::Q8_0, Quant::Q4KM, 1759),
        (333, Quant::F16, Quant::Q2K, 1590),
        (0, Quant::Q6K, Quant::Q3KM, 0),
        (65_535, Quant::Q3KM, Quant::F16, 16_015),
    ] {
        let m = PackedMeasurement {
            hw_key: 7,
            model_index: 0,
            tps_x10,
            ttft_ms: 0,
            quant: from.code(),
            runs: 1,
            provider: 1,
        };
        let model = source("m", 8_000_000_000, 128);
        let bytes = pack(&[&model], &[m], &[]).unwrap();
        let catalog = Catalog::parse(&bytes).unwrap();
        let model = catalog.get(0).unwrap();
        let mut hw = machine(65_536, 49_152);
        hw.hw_key = 7;
        let fit = evaluate_at(&model, &hw, &Opts::default(), to, 4096);
        let speed = estimate_with_catalog(&catalog, &model, &hw, &fit, Opts::default().efficiency);
        assert_eq!(speed.method, EstimateMethod::MeasuredAdjusted);
        assert_eq!(speed.decode_tps_x10, expected);
        assert_eq!(speed.measurement.unwrap().tps_x10, tps_x10);
    }
}

#[test]
fn what_runs_ranks_above_what_does_not() {
    let bytes = bytes_of(&[source("small", 1_000_000_000, 0), source("huge", 400_000_000_000, 255)]);
    let catalog = Catalog::parse(&bytes).unwrap();
    let hw = machine(16_384, 8_192);
    let of = |i: usize| evaluate_model(&catalog, &catalog.get(i).unwrap(), &hw, &Opts::default());
    let (a, b) = (of(0), of(1));
    assert!(a.fit.verdict.runnable() && !b.fit.verdict.runnable());
    assert_eq!(better((&a.fit, &a.scores), (&b.fit, &b.scores)), std::cmp::Ordering::Less);
    assert_eq!(better((&b.fit, &b.scores), (&a.fit, &a.scores)), std::cmp::Ordering::Greater);
    assert_eq!(better((&a.fit, &a.scores), (&a.fit, &a.scores)), std::cmp::Ordering::Equal);
    assert!(at_least(Verdict::Good, Verdict::Good) && !at_least(Verdict::Marginal, Verdict::Good));
}

#[test]
fn a_ranking_is_sorted_distinct_and_complete() {
    let models: Vec<SourceModel> = (1..30u64)
        .map(|i| source(&format!("org{}/m-{}b", i, i / 2), i * 1_000_000_000, (i * 7) as u8))
        .collect();
    let bytes = bytes_of(&models);
    let catalog = Catalog::parse(&bytes).unwrap();
    let hw = machine(32_768, 16_384);
    let opts = Opts::default();
    let top = recommend::<8>(&catalog, &hw, &opts, &Filter::default());
    assert_eq!(top.len(), 8);
    let mut names = vec![];
    let mut last = u16::MAX;
    let mut walk = top.iter();
    while let Some(rec) = walk.next() {
        assert!(rec.scores.composite <= last);
        last = rec.scores.composite;
        names.push(rec.model.name().split('/').nth(1).unwrap().to_string());
    }
    let mut unique = names.clone();
    unique.sort();
    unique.dedup();
    assert_eq!(unique.len(), 8);

    // What was left out ranks no higher, or is of weights that are in it.
    for i in 0..catalog.len() {
        let rec = evaluate_model(&catalog, &catalog.get(i).unwrap(), &hw, &opts);
        let held = names.iter().any(|n| rec.model.name().ends_with(&format!("/{n}")));
        assert!(held || rec.scores.composite <= last || !rec.fit.verdict.runnable());
    }
}

#[test]
fn a_use_case_reweights_and_hides_nothing() {
    let bytes = bytes_of(&[source("a-coder", 3_000_000_000, 9), source("b", 8_000_000_000, 200)]);
    let catalog = Catalog::parse(&bytes).unwrap();
    let hw = machine(65_536, 24_576);
    for use_case in [None, Some(UseCase::Coding), Some(UseCase::Chat)] {
        let opts = Opts { use_case, ..Opts::default() };
        assert_eq!(recommend::<4>(&catalog, &hw, &opts, &Filter::default()).len(), 2);
    }
    let only = Filter { use_case: Some(UseCase::Coding), ..Filter::default() };
    assert_eq!(recommend::<4>(&catalog, &hw, &Opts::default(), &only).len(), 1);
}

#[test]
fn reports_and_blank_lines_leave_a_session_as_it_is() {
    let bytes = bytes_of(&[source("m", 3_000_000_000, 100)]);
    let catalog = Catalog::parse(&bytes).unwrap();
    let mut console = Console::new();
    let mut out: ReportBuf<2048> = ReportBuf::new();
    let (hw, limit) = (console.hardware, console.limit);
    assert_eq!(console.handle("   ", &catalog, &mut out), Outcome::Empty);
    for line in ["help", "hw", "go", "fit m", "?"] {
        assert_eq!(console.handle(line, &catalog, &mut out), Outcome::Done);
        assert!(console.hardware == hw && console.limit == limit, "{line}");
    }
    for (line, limit) in [("limit 0", 1), ("limit 7", 7), ("limit 900", 32)] {
        console.handle(line, &catalog, &mut out);
        assert_eq!(console.limit, limit);
    }
}

#[test]
fn prompts_are_not_guessed() {
    let bytes = bytes_of(&[source("m", 3_000_000_000, 100)]);
    let catalog = Catalog::parse(&bytes).unwrap();
    let mut hw = machine(65_536, 24_576);
    let of = |hw: &Hardware| evaluate_model(&catalog, &catalog.get(0).unwrap(), hw, &Opts::default()).speed;
    assert!(of(&hw).prefill_tps_x10.is_some() && of(&hw).ttft_ms.is_some());
    hw.tflops_fp16_x10 = 0;
    assert!(of(&hw).prefill_tps_x10.is_none() && of(&hw).ttft_ms.is_none());
    assert_eq!(of(&hw).efficiency.to_bits(), Single::ratio(55, 100).to_bits());
}
