//! Community submissions: names, machines, and what they come to.

use openchoice::community::gather::ingest;
use openchoice::community::{
    machine_from, normalize_model, provider_code, quant_from_name, Submission, SubmittedHardware,
    SubmittedResult,
};
use openchoice::float::Double;
use openchoice::pack::{GgufSources, SourceModel};
use openchoice::packer::{assemble, build_report, unmatched_report};
use openchoice::{evaluate_model, hw_key, Backend, Catalog, Opts, Quant};

fn number(v: f64) -> Option<Double> {
    Some(Double::from_bits(v.to_bits()))
}

fn hardware(name: &str, ram_gb: f64, vram_gb: f64) -> SubmittedHardware {
    SubmittedHardware {
        hardware_name: Some(name.to_string()),
        hw_class: None,
        ram_gb: number(ram_gb),
        vram_gb: number(vram_gb),
        unified_memory: None,
    }
}

fn result(model: &str, tps: f64, ttft: f64, runs: u32) -> SubmittedResult {
    SubmittedResult {
        model: model.to_string(),
        avg_tps: number(tps),
        avg_ttft_ms: number(ttft),
        num_runs: Some(runs),
        provider: Some("Ollama".to_string()),
    }
}

fn source(name: &str, params: u64, downloads: u64) -> SourceModel {
    SourceModel {
        name: name.to_string(),
        parameters_raw: Some(params),
        active_parameters: None,
        context_length: Some(32_768),
        hidden_size: Some(4096),
        num_hidden_layers: Some(32),
        num_key_value_heads: Some(8),
        head_dim: Some(128),
        vocab_size: Some(151_936),
        is_moe: None,
        num_experts: None,
        capabilities: vec![],
        pipeline_tag: None,
        architecture: None,
        hf_downloads: Some(downloads),
        gguf_sources: GgufSources::Absent,
        quality_prior: 128,
    }
}

fn models() -> Vec<SourceModel> {
    vec![
        source("Qwen/Qwen3-8B", 8_190_000_000, 90_000),
        source("meta-llama/Meta-Llama-3.1-8B-Instruct", 8_030_000_000, 80_000),
        source("unsloth/Qwen3-8B-GGUF", 8_190_000_000, 70_000),
    ]
}

#[test]
fn names_of_one_model_come_to_one_key() {
    for name in [
        "qwen3:8b",
        "Qwen/Qwen3-8B",
        "Qwen3-8B-Q4_K_M.gguf",
        "unsloth/Qwen3-8B-GGUF",
        "qwen3-8b-agent-gpu50-latest",
        "qwen_3 8b-2507",
        "mlx-community/Qwen3-8B-4bit",
        "Qwen3-8B-Q8_0.gguf",
        "qwen3:8b-q4_1",
        "Qwen3-8B-Q5_0-Instruct",
        "Qwen3-8B-NVFP4",
        "Qwen3-8B-int8",
        "turboderp/Qwen3-8B-exl2",
    ] {
        assert_eq!(normalize_model(name), "qwen-3-8b", "{name}");
    }
    assert_eq!(normalize_model("Meta-Llama-3.1-8B-Instruct"), "llama-3-1-8b");
    assert_eq!(normalize_model("llama3.1:8b"), "llama-3-1-8b");
    assert_eq!(normalize_model("gemma-3-4b-it"), "gemma-3-4b");
    assert_eq!(normalize_model("model-v2ctx65k-x"), "model");
    assert_eq!(normalize_model("modèle-é7"), "modèle-é7");
    assert_eq!(normalize_model(""), "");
    assert_eq!(normalize_model("2507"), "");
    assert_eq!(normalize_model("gpt-oss-20b-MXFP4"), "gpt-oss-20b");
    assert_eq!(normalize_model("gpt-oss-20b-mxfp8"), "gpt-oss-20b");
    assert_eq!(normalize_model("phi-4-int4"), "phi-4");
    assert_eq!(normalize_model("x-q6-0"), "x-0");
    assert_eq!(normalize_model("x-q8-0-0"), "x-0");
}

#[test]
fn the_whole_part_of_a_size_is_no_variant() {
    assert_eq!(normalize_model("x-q8-1.7b"), "x-1-7b");
    assert_eq!(normalize_model("x-1.7b-q8_0"), "x-1-7b");
    assert_eq!(normalize_model("Qwen3-Q8-1.7B"), "qwen-3-1-7b");
    assert_eq!(normalize_model("qwen3-q4:0.6b"), "qwen-3-0-6b");
    assert_eq!(normalize_model("x-q5-1.-7b"), "x-7b");
    assert_eq!(normalize_model("x-q5_1."), "x");
    assert_eq!(normalize_model("x-q8-3-8b"), "x-3-8b");
    assert_eq!(normalize_model("x-q4-1"), normalize_model("x-q4_1"));
}

#[test]
fn case_publisher_and_separators_do_not_count() {
    assert_eq!(normalize_model("GEMMA-3"), normalize_model("gemma-3"));
    assert_eq!(normalize_model("a/b/gemma-3"), normalize_model("gemma-3"));
    assert_eq!(normalize_model("gemma:3_27b"), normalize_model("gemma-3.27b"));
}

#[test]
fn the_format_of_a_benchmark_goes_by_its_name() {
    for (name, q) in [
        ("x-Q4_K_M.gguf", Quant::Q4KM),
        ("x-q5_k_s", Quant::Q5KM),
        ("x-Q6_K", Quant::Q6K),
        ("x-Q8_0", Quant::Q8_0),
        ("x-q3_k_l", Quant::Q3KM),
        ("x-q2_k", Quant::Q2K),
        ("x-8bit", Quant::Q8_0),
        ("x-BF16", Quant::F16),
        ("x", Quant::Q4KM),
    ] {
        assert_eq!(quant_from_name(name), Some(q), "{name}");
    }
}

#[test]
fn runtimes_have_numbers() {
    assert_eq!(provider_code(Some("llama.cpp")), 1);
    assert_eq!(provider_code(Some("LlamaCPP")), 1);
    assert_eq!(provider_code(Some("ollama")), 2);
    assert_eq!(provider_code(Some("MLX")), 3);
    assert_eq!(provider_code(Some("vLLM")), 4);
    assert_eq!(provider_code(Some("other")), 0);
    assert_eq!(provider_code(None), 0);
}

#[test]
fn a_submitted_machine_is_taken_over() {
    let m = machine_from(&hardware("  NVIDIA GeForce RTX 4090 ", 64.0, 24.0)).unwrap();
    assert_eq!(m.name, "NVIDIA GeForce RTX 4090");
    assert_eq!(m.key, hw_key("nvidia geforce rtx-4090"));
    assert_eq!((m.hardware.ram_mb, m.hardware.vram_mb), (65_536, 24_576));
    assert_eq!((m.hardware.backend, m.hardware.unified), (Backend::Cuda, false));
    assert_eq!(m.hardware.gpu_bandwidth_gbps, 1008);
    assert_eq!((m.hardware.os_reserve_mb, m.hardware.hw_key), (2048, 0));

    let mut mac = hardware("M3 Max", 36.5, 0.0);
    mac.hw_class = Some("UNIFIED".to_string());
    let m = machine_from(&mac).unwrap();
    assert_eq!((m.hardware.backend, m.hardware.unified), (Backend::Metal, true));
    assert_eq!(m.hardware.ram_mb, 37_376);
    assert_eq!(machine_from(&hardware("AMD Radeon", 8.0, 0.0)).unwrap().hardware.backend, Backend::Rocm);
    assert_eq!(machine_from(&hardware("Intel Arc", 8.0, 0.0)).unwrap().hardware.backend, Backend::Sycl);
    assert_eq!(machine_from(&hardware("Some box", 8.0, 0.0)).unwrap().hardware.backend, Backend::CpuX86);
}

#[test]
fn a_machine_without_a_name_or_memory_is_none() {
    assert!(machine_from(&hardware("   ", 64.0, 0.0)).is_none());
    assert!(machine_from(&hardware("RTX 4090", 0.0, 24.0)).is_none());
    assert!(machine_from(&hardware("RTX 4090", -4.0, 24.0)).is_none());
    let mut nameless = hardware("x", 64.0, 0.0);
    nameless.hardware_name = None;
    assert!(machine_from(&nameless).is_none());
}

#[test]
fn the_wait_is_that_of_the_median_run() {
    let subs = vec![Submission {
        hardware: hardware("RTX 4090", 64.0, 24.0),
        results: vec![
            result("qwen3:8b", 10.0, 100.0, 1),
            result("qwen3:8b", 20.0, 0.0, 1),
            result("qwen3:8b", 30.0, 300.0, 1),
            result("llama3.1:8b", 10.0, 100.0, 1),
            result("llama3.1:8b", 20.0, 200.4, 1),
            result("llama3.1:8b", 30.0, 0.0, 1),
        ],
    }];
    let a = assemble(&models(), 1000, false, None, Some(&subs)).ok().unwrap();
    let ms = &a.ingested.as_ref().unwrap().measurements;
    assert_eq!((ms[0].tps_x10, ms[0].ttft_ms, ms[0].runs), (200, 0, 3));
    assert_eq!((ms[1].tps_x10, ms[1].ttft_ms, ms[1].runs), (200, 200, 3));
}

#[test]
fn results_become_medians_and_factors() {
    let subs = vec![
        Submission {
            hardware: hardware("RTX 4090", 64.0, 24.0),
            results: vec![
                result("qwen3:8b", 90.0, 120.0, 3),
                result("Qwen3-8B-8bit", 70.0, 0.0, 2),
                result("qwen3-8b", 110.0, 80.4, 255),
                result("unheard-of", 50.0, 0.0, 1),
                result("unheard-of", 51.0, 0.0, 1),
                result("another", 52.0, 0.0, 1),
                result("qwen3:8b", 0.0, 0.0, 1),
            ],
        },
        Submission {
            hardware: hardware("rtx-4090", 32.0, 24.0),
            results: vec![result("llama3.1:8b", 95.06, 0.0, 1)],
        },
        Submission { hardware: hardware("", 64.0, 24.0), results: vec![result("qwen3:8b", 1.0, 1.0, 1)] },
    ];
    let a = assemble(&models(), 1000, false, None, Some(&subs)).ok().unwrap();
    let i = a.ingested.as_ref().unwrap();
    assert_eq!((i.files, i.results, i.matched, i.machines), (3, 8, 4, 1));
    assert_eq!(i.unmatched, [("unheard-of".to_string(), 2), ("another".to_string(), 1)]);

    // One measurement for each model, the most downloaded of a key standing for
    // it, in the order of their keys.
    let key = hw_key("RTX 4090");
    assert_eq!(i.measurements.len(), 2);
    let m = i.measurements[0];
    assert_eq!((m.hw_key, m.model_index), (key, 0));
    assert_eq!((m.tps_x10, m.ttft_ms, m.runs), (900, 120, 255));
    assert_eq!((m.quant, m.provider), (Quant::Q4KM.code(), 2));
    let m = i.measurements[1];
    assert_eq!((m.model_index, m.tps_x10, m.ttft_ms, m.runs), (1, 951, 0, 1));

    assert_eq!(i.calibrations.len(), 1);
    let (hw, factor, samples) = i.calibrations[0];
    assert_eq!((hw, samples), (key, 4));
    assert!((50..=5000).contains(&factor));

    // What was recorded is what the device reads.
    let catalog = Catalog::parse(&a.bytes).unwrap();
    assert_eq!(catalog.measurement(key, 0).unwrap().tps_x10, 900);
    assert_eq!(catalog.measurement(key, 1).unwrap().tps_x10, 951);
    assert!(catalog.measurement(key, 2).is_none());
    assert_eq!(catalog.calibration(key).unwrap().1, 4);

    let report = build_report(&a, 3, "o", 0);
    let report = String::from_utf8(report.as_bytes().to_vec()).unwrap();
    assert!(report.ends_with(
        "  2 measurements from 3 submissions — 4 of 8 results matched a catalog model\n  1 machines seen, 1 with enough samples for a calibration factor\n"
    ));
    let list = unmatched_report(&i.unmatched);
    assert_eq!(
        String::from_utf8(list.as_bytes().to_vec()).unwrap(),
        "\nbenchmark names that matched no catalog model:\n    2  unheard-of\n    1  another\n"
    );
}

#[test]
fn a_factor_is_what_was_measured_against_the_formula() {
    let bytes = assemble(&models(), 1000, false, None, None).ok().unwrap().bytes;
    let catalog = Catalog::parse(&bytes).unwrap();
    let machine = machine_from(&hardware("RTX 4090", 64.0, 24.0)).unwrap();
    let opts = Opts { context: Some(4096), max_quant: Quant::Q4KM, ..Opts::default() };
    let said = |i: usize| {
        let model = catalog.get(i).unwrap();
        let fit = openchoice::fit::evaluate_at(&model, &machine.hardware, &opts, Quant::Q4KM, 4096);
        let speed = openchoice::speed::estimate(&model, &machine.hardware, &fit, opts.efficiency);
        speed.decode_tps_x10 as f64 / 10.0
    };
    // Ratios of 0.8, 0.5 and 0.9; one of 100 is not credible.
    let subs = vec![Submission {
        hardware: hardware("RTX 4090", 64.0, 24.0),
        results: vec![
            result("qwen3:8b", said(0) * 0.8, 0.0, 1),
            result("llama3.1:8b", said(1) * 0.5, 0.0, 1),
            result("qwen3:8b", said(0) * 0.9, 0.0, 1),
            result("qwen3:8b", said(0) * 100.0, 0.0, 1),
        ],
    }];
    let i = ingest(&catalog, &subs);
    assert_eq!(i.calibrations, [(hw_key("RTX 4090"), 800, 3)]);

    // A single ratio is an anecdote.
    let alone = vec![Submission {
        hardware: hardware("RTX 4090", 64.0, 24.0),
        results: vec![result("qwen3:8b", said(0), 0.0, 1)],
    }];
    let i = ingest(&catalog, &alone);
    assert_eq!((i.measurements.len(), i.calibrations.len()), (1, 0));
}

#[test]
fn what_was_recorded_is_what_is_recommended() {
    let subs = vec![Submission {
        hardware: hardware("RTX 4090", 64.0, 24.0),
        results: vec![result("Qwen3-8B-8bit", 77.7, 0.0, 1)],
    }];
    let a = assemble(&models(), 1000, false, None, Some(&subs)).ok().unwrap();
    let catalog = Catalog::parse(&a.bytes).unwrap();
    let mut hw = machine_from(&subs[0].hardware).unwrap().hardware;
    hw.hw_key = hw_key("RTX 4090");
    let rec = evaluate_model(&catalog, &catalog.get(0).unwrap(), &hw, &Opts::default());
    assert_eq!(rec.fit.quant, Quant::Q8_0);
    assert_eq!(rec.speed.decode_tps_x10, 777);
    assert!(rec.speed.method.is_measured());
}
