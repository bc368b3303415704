//! Packing catalogs, and reading back what was packed.

use openchoice::catalog::flags;
use openchoice::catalog::Provider;
use openchoice::float::Double;
use openchoice::pack::{
    family_for, keep, pack, reputation_prior, select, use_case_for, GgufSources, PackedMeasurement,
    SourceModel,
};
use openchoice::packer::{assemble, build_report, inspect, parse_args};
use openchoice::cli::{Arg, CliError};
use openchoice::{Catalog, CatalogError, Quant, UseCase};

fn source(name: &str, params: u64, downloads: u64) -> SourceModel {
    SourceModel {
        name: name.to_string(),
        parameters_raw: Some(params),
        active_parameters: None,
        context_length: Some(32_768),
        hidden_size: Some(4096),
        num_hidden_layers: Some(32),
        num_key_value_heads: Some(8),
        head_dim: Some(128),
        vocab_size: Some(151_936),
        is_moe: None,
        num_experts: None,
        capabilities: vec![],
        pipeline_tag: None,
        architecture: None,
        hf_downloads: Some(downloads),
        gguf_sources: GgufSources::Absent,
        quality_prior: 200,
    }
}

fn args(list: &[&str]) -> Vec<Arg> {
    list.iter().map(|s| Arg { text: s.to_string(), number: None }).collect()
}

#[test]
fn a_packed_catalog_reads_back() {
    let mut moe = source("Qwen/Qwen3-30B-A3B-Instruct", 30_532_122_624, 5_000);
    moe.is_moe = Some(true);
    moe.active_parameters = Some(3_345_000_000);
    let mut seer = source("org/Sees-7B", 7_000_000_000, 4_000);
    seer.capabilities = vec!["vision".to_string()];
    seer.gguf_sources = GgufSources::List(2);
    seer.num_hidden_layers = None;
    let dense = source("org/Dense-8B-it", 8_030_261_248, 3_000);
    let list = vec![&moe, &seer, &dense, &dense];
    let bytes = pack(&list, &[], &[]).unwrap();
    let catalog = Catalog::parse(&bytes).unwrap();
    assert_eq!(catalog.len(), 4);

    let m = catalog.get(0).unwrap();
    assert_eq!(m.name(), "Qwen/Qwen3-30B-A3B-Instruct");
    assert_eq!((m.params_m(), m.active_params_m()), (30_532, 3_345));
    assert_eq!((m.num_layers(), m.num_kv_heads(), m.head_dim()), (32, 8, 128));
    assert_eq!((m.hidden_size(), m.vocab_k(), m.context_length()), (4096, 151, 32_768));
    assert!(m.is_moe() && m.has_arch_metadata());
    assert!(m.has_flag(flags::INSTRUCT) && !m.has_flag(flags::VISION));
    assert_eq!((m.use_case(), m.quality_prior(), m.family_id()), (UseCase::Chat, 200, 2));

    let m = catalog.get(1).unwrap();
    assert!(m.has_flag(flags::VISION) && m.has_flag(flags::GGUF) && !m.has_arch_metadata());
    assert_eq!((m.num_layers(), m.use_case()), (0, UseCase::Multimodal));

    // The name that occurs twice is stored once.
    let names: usize = 28 + 12 + 16;
    assert_eq!(bytes.len(), 48 + 4 * 32 + names);
    assert_eq!(catalog.get(2).unwrap().name(), catalog.get(3).unwrap().name());
}

#[test]
fn a_sparse_model_without_an_active_count_gets_a_share() {
    let mut m = source("org/moe", 64_000_000_000, 0);
    m.is_moe = Some(true);
    m.num_experts = Some(64);
    let bytes = pack(&[&m], &[], &[]).unwrap();
    assert_eq!(Catalog::parse(&bytes).unwrap().get(0).unwrap().active_params_m(), 4000);
    m.num_experts = None;
    let bytes = pack(&[&m], &[], &[]).unwrap();
    assert_eq!(Catalog::parse(&bytes).unwrap().get(0).unwrap().active_params_m(), 8000);
}

#[test]
fn missing_figures_degrade_and_do_not_drop() {
    let m = SourceModel {
        name: "bare".to_string(),
        parameters_raw: Some(400_000),
        active_parameters: None,
        context_length: None,
        hidden_size: None,
        num_hidden_layers: None,
        num_key_value_heads: None,
        head_dim: None,
        vocab_size: None,
        is_moe: None,
        num_experts: None,
        capabilities: vec![],
        pipeline_tag: None,
        architecture: None,
        hf_downloads: None,
        gguf_sources: GgufSources::Absent,
        quality_prior: 0,
    };
    let bytes = pack(&[&m], &[], &[]).unwrap();
    let catalog = Catalog::parse(&bytes).unwrap();
    let read = catalog.get(0).unwrap();
    assert_eq!((read.params_m(), read.context_length()), (1, 4096));
    assert_eq!((read.hidden_size(), read.num_layers(), read.flags()), (0, 0, 0));
    for q in Quant::hierarchy() {
        assert!(read.supports_quant(q));
    }
}

#[test]
fn measurements_and_factors_are_found() {
    let m = source("org/a", 8_000_000_000, 1);
    let measured = |hw_key: u32, model_index: u32, tps_x10: u16| PackedMeasurement {
        hw_key,
        model_index,
        tps_x10,
        ttft_ms: 250,
        quant: Quant::Q6K.code(),
        runs: 3,
        provider: 2,
    };
    let ms = [measured(5, 0, 101), measured(5, 1, 202), measured(9, 0, 303)];
    let bytes = pack(&[&m, &m], &ms, &[(5, 800, 4), (9, 1250, 9)]).unwrap();
    let catalog = Catalog::parse(&bytes).unwrap();
    assert_eq!((catalog.measurement_count(), catalog.calibration_count()), (3, 2));
    for packed in ms {
        let read = catalog.measurement(packed.hw_key, packed.model_index).unwrap();
        assert_eq!((read.tps_x10, read.ttft_ms, read.runs), (packed.tps_x10, 250, 3));
        assert_eq!((read.quant, read.provider), (Some(Quant::Q6K), Provider::Ollama));
    }
    assert!(catalog.measurement(9, 1).is_none() && catalog.measurement(0, 0).is_none());
    let (factor, samples) = catalog.calibration(9).unwrap();
    assert_eq!((f32::from_bits(factor.to_bits()), samples), (1.25, 9));
    assert!(catalog.calibration(6).is_none());
}

#[test]
fn bytes_that_are_no_catalog_are_refused() {
    let m = source("org/a", 8_000_000_000, 1);
    let good = pack(&[&m], &[], &[]).unwrap();
    let refused = |bytes: &[u8]| Catalog::parse(bytes).err();
    assert_eq!(refused(&good[..20]), Some(CatalogError::TooShort));
    let mut bad = good.clone();
    bad[0] = b'X';
    assert_eq!(refused(&bad), Some(CatalogError::BadMagic));
    let mut bad = good.clone();
    bad[4] = 99;
    assert_eq!(refused(&bad), Some(CatalogError::UnsupportedVersion(99)));
    let mut bad = good.clone();
    bad[6] = 31;
    assert_eq!(refused(&bad), Some(CatalogError::BadRecordSize(31)));
    let mut bad = good.clone();
    bad[8] = 200;
    assert_eq!(refused(&bad), Some(CatalogError::Truncated));
    assert!(refused(&good).is_none());
}

#[test]
fn the_most_downloaded_are_kept() {
    let mut speech = source("org/speech", 2_000_000_000, 90_000);
    speech.pipeline_tag = Some("text-to-speech".to_string());
    let mut embeds = source("org/embeds", 300_000_000, 8_000);
    embeds.pipeline_tag = Some("feature-extraction".to_string());
    let models = vec![
        source("b/second", 7_000_000_000, 5_000),
        source("a/second", 7_000_000_000, 5_000),
        speech,
        source("c/first", 7_000_000_000, 70_000),
        source("d/tiny", 2, 70_000),
        source("e/unused", 7_000_000_000, 10),
        embeds,
        source("", 7_000_000_000, 70_000),
    ];
    let names = |all: bool, top: Option<usize>| -> Vec<String> {
        select(&models, 1000, all, top).iter().map(|m| m.name.clone()).collect()
    };
    assert_eq!(names(false, None), ["c/first", "org/embeds", "a/second", "b/second"]);
    assert_eq!(names(false, Some(2)), ["c/first", "org/embeds"]);
    assert_eq!(names(true, Some(1)), ["org/speech"]);
    assert!(!keep(&models[4], 0, true) && keep(&models[5], 10, false));
}

#[test]
fn use_cases_and_families_go_by_the_name() {
    let case = |name: &str| use_case_for(&source(name, 1, 1));
    assert_eq!(case("org/StarCoder2"), UseCase::Coding);
    assert_eq!(case("deepseek-ai/DeepSeek-R1"), UseCase::Reasoning);
    assert_eq!(case("org/Llama-Chat"), UseCase::Chat);
    assert_eq!(case("org/Llama"), UseCase::General);
    let mut tagged = source("org/bge-code", 1, 1);
    tagged.pipeline_tag = Some("sentence-similarity".to_string());
    assert_eq!(use_case_for(&tagged), UseCase::Embedding);
    assert_eq!(family_for("org/mixtral", &None), 0);
    assert_eq!(family_for("mistralai/mistral-7b", &None), 3);
    assert_eq!(family_for("org/unnamed", &Some("GemmaForCausalLM".to_string())), 4);
}

#[test]
fn a_prior_is_the_reputation_of_a_model() {
    let prior = |downloads: f64, likes: f64| {
        let log = |n: f64| Double::from_bits(n.max(1.0).log10().to_bits());
        reputation_prior(log(downloads), log(likes))
    };
    assert_eq!(prior(0.0, 0.0), 0);
    assert_eq!(prior(1e8, 1e4), 255);
    assert_eq!(prior(1e12, 1e9), 255);
    assert_eq!(prior(1e4, 0.0), 95);
    assert_eq!(prior(0.0, 1e2), 31);
}

#[test]
fn arguments_of_the_packer_are_read() {
    let a = parse_args(&args(&["build", "-i", "in.json", "--output", "out.ocb", "--top", "+512"]));
    let a = a.ok().unwrap();
    assert_eq!(a.command, "build");
    assert_eq!((a.input.as_deref(), a.output.as_deref()), (Some("in.json"), Some("out.ocb")));
    assert_eq!((a.top, a.min_downloads, a.include_all_pipelines), (Some(512), 1000, false));
    let a = parse_args(&args(&["inspect", "x.ocb", "--all-pipelines", "--show-unmatched", "-o"]));
    let a = a.ok().unwrap();
    assert_eq!((a.path.as_deref(), a.output), (Some("x.ocb"), None));
    assert!(a.include_all_pipelines && a.show_unmatched);
    assert_eq!(parse_args(&args(&[])).ok().unwrap().command, "help");

    let complaint = |list: &[&str]| {
        let list = args(list);
        let e = parse_args(&list).err().unwrap();
        String::from_utf8(e.message(&list).as_bytes().to_vec()).unwrap()
    };
    assert_eq!(complaint(&["build", "--top"]), "--top needs a value");
    assert_eq!(complaint(&["build", "--top", "many"]), "--top must be a number");
    assert_eq!(complaint(&["build", "--min-downloads", "-1"]), "--min-downloads must be a number");
    assert_eq!(complaint(&["inspect", "a", "b"]), "unknown flag: b");
    assert_eq!(
        parse_args(&args(&["build", "--frobnicate"])).err(),
        Some(CliError::UnknownFlag(1))
    );
}

#[test]
fn a_catalog_is_assembled_and_reported() {
    let models = vec![
        source("org/Alpha-8B", 8_030_000_000, 9_000),
        source("org/Beta-3B", 3_000_000_000, 20_000),
        source("org/Left-Out-1B", 1_000_000_000, 5),
    ];
    let a = assemble(&models, 1000, false, None, None).ok().unwrap();
    assert_eq!(a.kept, 2);
    assert!(a.ingested.is_none());
    let report = build_report(&a, models.len(), "out.ocb", 1_572_864);
    assert_eq!(
        String::from_utf8(report.as_bytes().to_vec()).unwrap(),
        "packed 2 of 3 models into out.ocb\n  137 bytes (0.1 KB), 68 bytes/model\n  source JSON was 1.5 MB\n"
    );
    let catalog = Catalog::parse(&a.bytes).unwrap();
    let report = inspect("out.ocb", &catalog, a.bytes.len());
    let expected = format!(
        "out.ocb: 2 models, 137 bytes\n  0 real measurements, 0 machines with a calibration factor\n  0 sparse, 2 with full architecture metadata (100%)\n\n  first 10 entries:\n    {:<44} {:>7}M params  {:>7} ctx  {}\n    {:<44} {:>7}M params  {:>7} ctx  {}\n",
        "org/Beta-3B", 3000, 32768, "general", "org/Alpha-8B", 8030, 32768, "general"
    );
    assert_eq!(String::from_utf8(report.as_bytes().to_vec()).unwrap(), expected);
}
