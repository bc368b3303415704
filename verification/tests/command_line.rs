//! The desktop command line and the detection behind it.

use openchoice::cli::listing::{cmd_fit, cmd_recommend, cmd_system, escape, fmt_tokens, FitError};
use openchoice::cli::{apply_overrides, command, parse_cli, Arg, Cli, CliError, Command};
use openchoice::detect::{asks_amd, detect, read_amd, read_nvidia, Detected, Facts, Note, Probe};
use openchoice::float::Single;
use openchoice::pack::{pack, GgufSources, SourceModel};
use openchoice::{hw_key, Backend, Catalog, Hardware, KvQuant, Quant, UseCase, Verdict};

fn args(list: &[&str]) -> Vec<Arg> {
    list.iter()
        .map(|s| Arg {
            text: s.to_string(),
            number: s.parse::<f32>().ok().map(|v| Single::from_bits(v.to_bits())),
        })
        .collect()
}

fn cli(list: &[&str]) -> Cli {
    parse_cli(&args(list), "default.ocb").ok().unwrap()
}

fn complaint(list: &[&str]) -> (CliError, String) {
    let list = args(list);
    let e = parse_cli(&list, "default.ocb").err().unwrap();
    let message = String::from_utf8(e.message(&list).as_bytes().to_vec()).unwrap();
    (e, message)
}

fn facts() -> Facts {
    Facts {
        memory: 64 << 30,
        cpu_brand: Some(" AMD Ryzen 9 ".to_string()),
        cpu_cores: 16,
        arm: false,
        macos: false,
        nvidia: Probe::Missing,
        amd: Probe::Missing,
    }
}

fn text(bytes: &[u8]) -> String {
    String::from_utf8(bytes.to_vec()).unwrap()
}

fn source(name: &str, params: u64) -> SourceModel {
    SourceModel {
        name: name.to_string(),
        parameters_raw: Some(params),
        active_parameters: None,
        context_length: Some(32_768),
        hidden_size: Some(4096),
        num_hidden_layers: Some(28),
        num_key_value_heads: Some(4),
        head_dim: Some(128),
        vocab_size: Some(151_936),
        is_moe: None,
        num_experts: None,
        capabilities: vec![],
        pipeline_tag: None,
        architecture: None,
        hf_downloads: Some(1000),
        gguf_sources: GgufSources::Absent,
        quality_prior: 128,
    }
}

fn catalog_bytes() -> Vec<u8> {
    let (a, b) = (source("Qwen/Qwen2.5-Coder-7B-Instruct", 7_615_616_512), source("org/say\"\\", 1_500_000_000));
    pack(&[&a, &b], &[], &[]).unwrap()
}

fn with_gpu() -> Detected {
    let mut f = facts();
    f.nvidia = Probe::Output("NVIDIA GeForce RTX 4090, 24576\n".to_string());
    detect(&f)
}

#[test]
fn the_command_comes_first() {
    assert_eq!(command(&args(&[])), Command::Recommend);
    assert_eq!(command(&args(&[""])), Command::Recommend);
    assert_eq!(command(&args(&["recommend"])), Command::Recommend);
    assert_eq!(command(&args(&["system", "x"])), Command::System);
    assert_eq!(command(&args(&["fit"])), Command::Fit);
    assert_eq!(command(&args(&["-h"])), Command::Help);
    assert_eq!(command(&args(&["frobnicate"])), Command::Unknown);
}

#[test]
fn options_are_read() {
    let c = cli(&["recommend"]);
    assert_eq!((c.catalog.as_str(), c.limit, c.json), ("default.ocb", 15, false));
    assert!(c.opts == openchoice::Opts::default());
    let c = cli(&[
        "recommend", "--catalog", "x.ocb", "--use-case", "coding", "--only", "chat", "--limit", "3",
        "--context", "4096", "--min-fit", "Good", "--kv", "Q8_0", "--max-quant", "f16",
        "--efficiency", "0.7", "--ram", "1024", "--vram", "+2048", "--gpu", "RTX 4090", "--json",
        "name",
    ]);
    assert_eq!((c.catalog.as_str(), c.limit, c.json), ("x.ocb", 3, true));
    assert_eq!((c.use_case, c.only), (Some(UseCase::Coding), Some(UseCase::Chat)));
    assert_eq!((c.context, c.opts.context, c.opts.use_case), (Some(4096), Some(4096), Some(UseCase::Coding)));
    assert_eq!(c.min_fit, Some(Verdict::Good));
    assert_eq!((c.opts.kv_quant, c.opts.max_quant), (KvQuant::Q8, Quant::F16));
    assert_eq!(c.opts.efficiency.to_bits(), 0.7f32.to_bits());
    assert_eq!((c.ram_override, c.vram_override), (Some(1024), Some(2048)));
    assert_eq!((c.gpu_override.as_deref(), c.positional.as_deref()), (Some("RTX 4090"), Some("name")));
}

#[test]
fn complaints_name_the_argument() {
    for (list, e, message) in [
        (vec!["fit", "--ram"], CliError::NeedsValue(1), "--ram needs a value"),
        (vec!["fit", "x", "--limit", "-3"], CliError::NotANumber(2), "--limit must be a number"),
        (vec!["fit", "--only", "Chess"], CliError::UnknownUseCase(2), "unknown use case: Chess"),
        (vec!["fit", "--min-fit", "GREAT"], CliError::UnknownFit(2), "unknown fit level: great"),
        (vec!["fit", "--kv", "Q2"], CliError::UnknownKv(2), "unknown KV precision: q2"),
        (vec!["fit", "--max-quant", "Q1"], CliError::UnknownQuant(2), "unknown quantization: Q1"),
        (vec!["fit", "--efficiency", "x"], CliError::BadEfficiency, "--efficiency must be a number like 0.55"),
        (vec!["fit", "a", "b"], CliError::UnknownFlag(2), "unknown flag: b"),
        (vec!["fit", "--nope"], CliError::UnknownFlag(1), "unknown flag: --nope"),
    ] {
        assert_eq!(complaint(&list), (e, message.to_string()));
    }
}

#[test]
fn a_named_gpu_replaces_the_one_at_hand() {
    let here = with_gpu().hardware;
    let c = cli(&["recommend", "--gpu", "RX 7900 XTX", "--vram", "24576", "--ram", "32768"]);
    let hw = apply_overrides(here, &c);
    assert_eq!((hw.backend, hw.unified, hw.ram_mb), (Backend::Rocm, false, 32_768));
    assert_eq!((hw.gpu_bandwidth_gbps, hw.hw_key), (960, hw_key("RX 7900 XTX")));
    let bare = detect(&facts()).hardware;
    assert!(apply_overrides(bare, &c) == hw);

    let c = cli(&["recommend", "--gpu", "M4 Max"]);
    assert_eq!(apply_overrides(here, &c).backend, Backend::Metal);
    let c = cli(&["recommend", "--gpu", "Arc B580"]);
    assert_eq!(apply_overrides(here, &c).backend, Backend::Sycl);
    let c = cli(&["recommend", "--gpu", "no such card"]);
    assert_eq!(apply_overrides(here, &c).gpu_bandwidth_gbps, 0);
    let c = cli(&["recommend", "--vram", "8192"]);
    assert_eq!(apply_overrides(bare, &c).backend, Backend::Cuda);
    assert!(apply_overrides(here, &cli(&["recommend"])) == here);
}

#[test]
fn what_nvidia_says_is_read() {
    let read = |s: &str| read_nvidia(s);
    assert_eq!(read("RTX 4090, 24564\r\n\n RTX 3090 , 24576 \n"), Some(("RTX 4090".to_string(), 49_140)));
    assert_eq!(read("RTX 4090, 24564\nnonsense\n"), None);
    assert_eq!(read("RTX 4090, [N/A]\n"), None);
    assert_eq!(read("RTX 4090, 0\n"), None);
    assert_eq!(read(""), None);
    assert_eq!(read("A, 4294967295\nB, 5\n"), Some(("A".to_string(), u32::MAX)));
}

#[test]
fn what_amd_says_is_read() {
    let out = "device,VRAM Total Memory (B),x\ncard0, VRAM Total Memory (B), 25753026560\nGPU[0],Card Series, \nProduct Name, Radeon RX 7900 XTX\n";
    assert_eq!(read_amd(out), Some(("Radeon RX 7900 XTX".to_string(), 24_560)));
    assert_eq!(read_amd("vram total memory,1048576\n"), Some(("AMD GPU".to_string(), 1)));
    assert_eq!(read_amd("Card Series, Radeon\n"), None);
}

#[test]
fn a_machine_is_made_out() {
    let d = with_gpu();
    assert_eq!((d.cpu_name.as_str(), d.cpu_cores), ("AMD Ryzen 9", 16));
    assert_eq!(d.gpu_name.as_deref(), Some("NVIDIA GeForce RTX 4090"));
    assert!(d.notes.is_empty());
    let expected = Hardware {
        ram_mb: 65_536,
        vram_mb: 24_576,
        unified: false,
        backend: Backend::Cuda,
        gpu_bandwidth_gbps: 1008,
        ram_bandwidth_gbps: 0,
        tflops_fp16_x10: d.hardware.tflops_fp16_x10,
        os_reserve_mb: 4096,
        hw_key: hw_key("NVIDIA GeForce RTX 4090"),
    };
    assert!(d.hardware == expected);
}

#[test]
fn steps_that_came_to_nothing_are_noted() {
    let mut f = facts();
    f.nvidia = Probe::Failed;
    f.amd = Probe::Failed;
    f.memory = 8 << 30;
    f.arm = true;
    f.cpu_brand = None;
    let d = detect(&f);
    assert_eq!(d.notes, [Note::NvidiaFailed, Note::AmdFailed, Note::NoAccelerator]);
    assert_eq!((d.hardware.backend, d.hardware.hw_key, d.hardware.vram_mb), (Backend::CpuArm, 0, 0));
    assert_eq!((d.hardware.os_reserve_mb, d.cpu_name.as_str()), (2048, "unknown"));

    f.macos = true;
    f.cpu_brand = Some("Apple M9 Ultra".to_string());
    let d = detect(&f);
    assert_eq!(d.gpu_name.as_deref(), Some("Apple M9 Ultra"));
    assert_eq!((d.hardware.backend, d.hardware.unified, d.hardware.vram_mb), (Backend::Metal, true, 6144));
    assert_eq!(d.notes, [Note::NotInTable]);

    let mut f = facts();
    f.amd = Probe::Output("Product Name, Odd\nVRAM Total Memory, 2097152\n".to_string());
    let d = detect(&f);
    assert_eq!((d.hardware.backend, d.hardware.vram_mb), (Backend::Rocm, 2));
    assert!(asks_amd(false, false, &Probe::Missing) && asks_amd(true, false, &Probe::Failed));
    assert!(!asks_amd(true, true, &Probe::Missing));
    assert!(!asks_amd(false, false, &Probe::Output("RTX, 8".to_string())));
}

#[test]
fn the_machine_is_described() {
    assert_eq!(
        text(cmd_system(&with_gpu()).as_bytes()),
        "CPU       AMD Ryzen 9 (16 physical cores)\nRAM       65536 MiB total, 61440 MiB usable after OS reserve\nGPU       NVIDIA GeForce RTX 4090 — 24576 MiB dedicated\nBackend   CUDA\nBandwidth 1008 GB/s (override)\nfp16      165.4 TFLOPS\n"
    );
    let page = text(cmd_system(&detect(&facts())).as_bytes());
    assert!(page.contains("GPU       none detected\n"));
    assert!(page.contains("Bandwidth unknown — speed estimates use the backend constant\n"));
    assert!(page.contains("fp16      unknown — prefill and TTFT will not be estimated\n"));
    assert!(page.ends_with("note      no accelerator detected; scoring against system RAM\n"));
}

#[test]
fn one_model_is_shown_in_full() {
    let bytes = catalog_bytes();
    let catalog = Catalog::parse(&bytes).unwrap();
    let page = cmd_fit(&catalog, &cli(&["fit", "qwen2.5-coder-7b"]), &with_gpu()).ok().unwrap();
    let page = text(page.as_bytes());
    let lines: Vec<&str> = page.lines().collect();
    assert_eq!(lines[0], "Qwen/Qwen2.5-Coder-7B-Instruct");
    assert_eq!(lines[1], "  7.6B params, 32k native context, coding");
    assert_eq!(lines[3], "  verdict     Perfect on GPU");
    assert_eq!(lines[4], "  quant       Q8_0");
    assert_eq!(lines[5], "  memory      10086 MiB of 24576 MiB pool (41.0%)");
    assert_eq!(
        lines[6],
        "              weights 7717 MiB + KV 1792 MiB (from model config) + overhead 577 MiB"
    );
    assert_eq!(lines[7], "  context     32k usable of 32k advertised");
    assert_eq!(lines[9], "  decode      61.3 tok/s  (roofline at 1008 GB/s, 55% efficiency)");
    assert_eq!(lines[10], "  prefill     3800 tok/s, 8621 ms to first token at 32k context");
    assert!(lines[12].starts_with("  scores      quality "));
    assert_eq!(lines.len(), 13);
}

#[test]
fn a_model_that_is_not_there_is_not_scored() {
    let bytes = catalog_bytes();
    let catalog = Catalog::parse(&bytes).unwrap();
    assert_eq!(cmd_fit(&catalog, &cli(&["fit"]), &with_gpu()).err(), Some(FitError::NoName));
    assert_eq!(cmd_fit(&catalog, &cli(&["fit", "zzz"]), &with_gpu()).err(), Some(FitError::NoModel));
}

#[test]
fn a_catalog_is_ranked() {
    let bytes = catalog_bytes();
    let catalog = Catalog::parse(&bytes).unwrap();
    let page = cmd_recommend(&catalog, &cli(&["recommend", "--use-case", "coding"]), &with_gpu());
    let page = text(page.as_bytes());
    let lines: Vec<&str> = page.lines().collect();
    assert_eq!(lines[0], "NVIDIA GeForce RTX 4090 — 65536 MiB RAM, 24576 MiB VRAM, CUDA");
    assert_eq!(lines[1], "use case: coding");
    assert_eq!(lines[2], "2 of 2 models scored");
    assert_eq!(
        lines[4],
        format!(
            "{:<40} {:>8} {:>9} {:>8} {:>10} {:>9} {:>6}",
            "MODEL", "QUANT", "MEMORY", "TOK/S", "FIT", "CONTEXT", "SCORE"
        )
    );
    let head = format!(
        "{:<40} {:>8} {:>7} MiB {:>7.1}{} {:>10} {:>9} ",
        "Qwen/Qwen2.5-Coder-7B-Instruct", "Q8_0", 10086, 61.3, ' ', "Perfect", "32k"
    );
    assert!(lines[5].starts_with(&head), "{}", lines[5]);
    assert_eq!(lines[8], "legend: MEMORY is resident footprint; CONTEXT is what actually fits, not the");
    assert_eq!(lines[9], "advertised window. Speed is a roofline estimate unless marked (~).");

    let page = cmd_recommend(&catalog, &cli(&["recommend", "--limit", "1"]), &detect(&facts()));
    let page = text(page.as_bytes());
    assert!(page.starts_with("CPU only — 65536 MiB RAM, 0 MiB VRAM, CPU"));
    assert!(page.contains("\n1 of 2 models scored\n"));
}

#[test]
fn answers_can_be_read_by_machines() {
    let bytes = catalog_bytes();
    let catalog = Catalog::parse(&bytes).unwrap();
    let page = cmd_recommend(&catalog, &cli(&["recommend", "--json"]), &with_gpu());
    let page = text(page.as_bytes());
    assert!(page.starts_with("{\"models\":[\n  {\"name\":\"Qwen/Qwen2.5-Coder-7B-Instruct\",\"params_m\":7616,\"quant\":\"Q8_0\",\"verdict\":\"Perfect\",\"run_mode\":\"GPU\",\"memory_mb\":10086,\"pool_mb\":24576,\"utilization_pct\":41.0,\"decode_tps\":61.3,\"estimate_method\":\"roofline\",\"bandwidth_gbps\":1008,\"usable_context\":32768,\"native_context\":32768,\"kv_source\":\"metadata\",\"prefill_tps\":"));
    assert!(page.contains("}},\n  {\"name\":\"org/say\\\"\\\\\","));
    assert!(page.ends_with("}}\n]}\n"));

    // What was not estimated is null, which is not zero.
    let page = cmd_fit(&catalog, &cli(&["fit", "coder", "--json"]), &detect(&facts())).ok().unwrap();
    let page = text(page.as_bytes());
    assert!(page.contains("\"prefill_tps\":null,\"ttft_ms\":null,\"scores\":{\"quality\":"));
    assert!(page.starts_with("{\"models\":[\n  {") && page.ends_with("}}\n]}\n"));
}

#[test]
fn figures_are_short() {
    assert_eq!(fmt_tokens(999), b"999");
    assert_eq!(fmt_tokens(1000), b"0k");
    assert_eq!(fmt_tokens(32_768), b"32k");
    assert_eq!(escape("a\\b\"c"), b"a\\\\b\\\"c");
}
