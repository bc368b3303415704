//! What the command line answers.

use vstd::prelude::*;
use vstd::utf8::*;

use crate::catalog::flags;
use crate::catalog::{Catalog, CatalogData, Model, UseCase};
use crate::cli;
use crate::cli::{apply_overrides, Cli, CliData};
use crate::console;
use crate::detect::{Detected, Note};
use crate::fit::{Fit, KvSource};
use crate::float::Single;
use crate::hardware::{BandwidthSource, Hardware};
use crate::numeral;
use crate::numeral::Numeral;
use crate::page::{Draft, Page};
use crate::recommend;
use crate::recommend::{evaluate_model, Filter, RecData, Recommendation, TopN};
use crate::text;

verus! {

// --- what is written --------------------------------------------------------

/// A token count: thousands from a thousand on.
pub open spec fn tokens_spec(t: u32) -> Seq<u8> {
    if t >= 1000 {
        numeral::decimal((t / 1024) as nat).push(107)
    } else {
        numeral::decimal(t as nat)
    }
}

/// A parameter count: billions from a thousand million on.
pub open spec fn params_spec(d: Draft, m: u32) -> Draft {
    if m >= 1000 {
        d.fixed1(Single::nearest(m as nat, 1).div_spec(Single::nearest(1000, 1))).say("B")
    } else {
        d.decimal(m as nat).say("M")
    }
}

/// A text inside a JSON string: quotes and backslashes are led by a backslash.
pub open spec fn escaped(s: Seq<u8>) -> Seq<u8>
    decreases s.len(),
{
    if s.len() == 0 {
        Seq::empty()
    } else {
        let rest = escaped(s.drop_last());
        if s.last() == 92 || s.last() == 34 {
            rest.push(92).push(s.last())
        } else {
            rest.push(s.last())
        }
    }
}

/// One line of a ranking.
#[verifier::opaque]
pub open spec fn row_spec(d: Draft, rec: RecData) -> Draft {
    d.left(text::shortened(rec.model.name(), 40), 40).say(" ").right(
        text::bytes(rec.fit.quant.name_spec()),
        8,
    ).say(" ").right(numeral::decimal(rec.fit.memory.resident_spec() as nat), 7).say(" MiB ").right(
        numeral::fixed1(console::from_tenths(rec.speed.decode_tps_x10 as nat)),
        7,
    ).put(seq![console::mark_spec(rec.speed.method)]).say(" ").right(
        text::bytes(rec.fit.verdict.name_spec()),
        10,
    ).say(" ").right(tokens_spec(rec.fit.usable_context), 9).say(" ").right(
        numeral::decimal((rec.scores.composite / 100) as nat),
        6,
    ).say("\n")
}

/// The first `n` lines of a ranking.
pub open spec fn rows_spec(d: Draft, top: Seq<RecData>, n: nat) -> Draft
    decreases n,
{
    if n == 0 {
        d
    } else {
        row_spec(rows_spec(d, top, (n - 1) as nat), top[n - 1])
    }
}

/// How many lines are shown.
pub open spec fn shown(top: Seq<RecData>, limit: usize) -> nat {
    if limit < top.len() {
        limit as nat
    } else {
        top.len()
    }
}

pub open spec fn heading() -> &'static str {
    "MODEL                                       QUANT    MEMORY    TOK/S        FIT   CONTEXT  SCORE\n"
}

pub open spec fn legend() -> &'static str {
    "\nlegend: MEMORY is resident footprint; CONTEXT is what actually fits, not the\nadvertised window. Speed is a roofline estimate unless marked (~).\n"
}

/// A ranking, with the machine it is of over it.
#[verifier::opaque]
pub open spec fn ranking_spec(
    hw: Hardware,
    gpu: Option<Seq<u8>>,
    cli: CliData,
    top: Seq<RecData>,
    count: nat,
) -> Draft {
    let d = Draft::empty().put(
        match gpu {
            Some(name) => name,
            None => text::bytes("CPU only"),
        },
    ).say(" — ").decimal(hw.ram_mb as nat).say(" MiB RAM, ").decimal(hw.vram_mb as nat).say(
        " MiB VRAM, ",
    ).say(hw.backend.name_spec()).say("\n");
    let d = match cli.use_case {
        Some(u) => d.say("use case: ").say(u.name_spec()).say("\n"),
        None => d,
    };
    let d = d.decimal(shown(top, cli.limit)).say(" of ").decimal(count).say(" models scored\n\n").say(
        heading(),
    );
    rows_spec(d, top, shown(top, cli.limit)).say(legend())
}

pub open spec fn kv_word(source: KvSource) -> &'static str {
    match source {
        KvSource::Metadata => "metadata",
        KvSource::Estimated => "estimated",
    }
}

/// What a model is and how it fits, for machines to read.
#[verifier::opaque]
pub open spec fn json_fit(d: Draft, rec: RecData) -> Draft {
    let f = rec.fit;
    d.say("  {\"name\":\"").put(escaped(rec.model.name())).say("\",\"params_m\":").decimal(
        rec.model.params_m() as nat,
    ).say(",\"quant\":\"").say(f.quant.name_spec()).say("\",\"verdict\":\"").say(
        f.verdict.name_spec(),
    ).say("\",\"run_mode\":\"").say(f.run_mode.name_spec()).say("\",\"memory_mb\":").decimal(
        f.memory.resident_spec() as nat,
    ).say(",\"pool_mb\":").decimal(f.pool_mb as nat).say(",\"utilization_pct\":").fixed1(
        console::from_tenths(f.utilization_pctx10 as nat),
    )
}

/// How fast a model is and what it scores, for machines to read. What was not
/// estimated is null and not zero, which would be instant.
#[verifier::opaque]
pub open spec fn json_speed(d: Draft, rec: RecData) -> Draft {
    let f = rec.fit;
    let d = d.say(",\"decode_tps\":").fixed1(
        console::from_tenths(rec.speed.decode_tps_x10 as nat),
    ).say(",\"estimate_method\":\"").say(rec.speed.method.name_spec()).say(
        "\",\"bandwidth_gbps\":",
    ).decimal(rec.speed.bandwidth_gbps as nat).say(",\"usable_context\":").decimal(
        f.usable_context as nat,
    ).say(",\"native_context\":").decimal(rec.model.context_length() as nat).say(
        ",\"kv_source\":\"",
    ).say(kv_word(f.memory.kv_source)).say("\",\"prefill_tps\":");
    let d = match rec.speed.prefill_tps_x10 {
        Some(v) => d.fixed1(console::from_tenths(v as nat)),
        None => d.say("null"),
    };
    let d = d.say(",\"ttft_ms\":");
    match rec.speed.ttft_ms {
        Some(v) => d.decimal(v as nat),
        None => d.say("null"),
    }
}

#[verifier::opaque]
pub open spec fn json_scores(d: Draft, rec: RecData) -> Draft {
    d.say(",\"scores\":{\"quality\":").decimal(rec.scores.quality as nat).say(",\"speed\":").decimal(
        rec.scores.speed as nat,
    ).say(",\"fit\":").decimal(rec.scores.fit as nat).say(",\"context\":").decimal(
        rec.scores.context as nat,
    ).say(",\"composite\":").decimal(rec.scores.composite as nat).say("}}")
}

pub open spec fn json_item(d: Draft, rec: RecData) -> Draft {
    json_scores(json_speed(json_fit(d, rec), rec), rec)
}

/// The first `n` entries of a list, with commas between them.
pub open spec fn json_items(d: Draft, top: Seq<RecData>, n: nat) -> Draft
    decreases n,
{
    if n == 0 {
        d
    } else {
        let before = json_items(d, top, (n - 1) as nat);
        json_item(
            if n > 1 {
                before.say(",\n")
            } else {
                before
            },
            top[n - 1],
        )
    }
}

/// A list of recommendations, for machines to read.
pub open spec fn json_spec(top: Seq<RecData>, n: nat) -> Draft {
    json_items(Draft::empty().say("{\"models\":[\n"), top, n).say("\n]}\n")
}

/// What a model is and how it fits.
#[verifier::opaque]
pub open spec fn fit_lines(d: Draft, rec: RecData) -> Draft {
    let f = rec.fit;
    let d = params_spec(d.put(rec.model.name()).say("\n  "), rec.model.params_m()).say(" params");
    let d = if rec.model.has_flag(flags::MOE) {
        params_spec(d.say(" ("), rec.model.active_params_m()).say(" active)")
    } else {
        d
    };
    d.say(", ").put(tokens_spec(rec.model.context_length())).say(" native context, ").say(
        rec.model.use_case().name_spec(),
    ).say("\n\n  verdict     ").say(f.verdict.name_spec()).say(" on ").say(
        f.run_mode.name_spec(),
    ).say("\n  quant       ").say(f.quant.name_spec()).say("\n")
}

pub open spec fn kv_phrase(source: KvSource) -> &'static str {
    match source {
        KvSource::Metadata => "from model config",
        KvSource::Estimated => "estimated from size class",
    }
}

/// The memory behind the verdict.
#[verifier::opaque]
pub open spec fn memory_lines(d: Draft, rec: RecData) -> Draft {
    let f = rec.fit;
    let d = d.say("  memory      ").decimal(f.memory.resident_spec() as nat).say(" MiB of ").decimal(
        f.pool_mb as nat,
    ).say(" MiB pool (").fixed1(console::from_tenths(f.utilization_pctx10 as nat)).say(
        "%)\n              weights ",
    ).decimal(f.memory.weights_mb as nat).say(" MiB + KV ").decimal(
        f.memory.kv_cache_mb as nat,
    ).say(" MiB (").say(kv_phrase(f.memory.kv_source)).say(") + overhead ").decimal(
        f.memory.overhead_mb as nat,
    ).say(" MiB\n");
    let d = if f.memory.offloaded_mb > 0 {
        d.say("              ").decimal(f.memory.offloaded_mb as nat).say(
            " MiB of inactive experts offloaded to RAM\n",
        )
    } else {
        d
    };
    d.say("  context     ").put(tokens_spec(f.usable_context)).say(" usable of ").put(
        tokens_spec(rec.model.context_length()),
    ).say(" advertised\n\n")
}

/// The speed with where it comes from, and the scores.
#[verifier::opaque]
pub open spec fn speed_lines(d: Draft, rec: RecData) -> Draft {
    let d = d.say("  decode      ").fixed1(
        console::from_tenths(rec.speed.decode_tps_x10 as nat),
    ).say(" tok/s  (").say(rec.speed.method.name_spec()).say(" at ").decimal(
        rec.speed.bandwidth_gbps as nat,
    ).say(" GB/s, ").fixed0(rec.speed.efficiency.mul_spec(Single::nearest(100, 1))).say(
        "% efficiency)\n",
    );
    let d = match (rec.speed.prefill_tps_x10, rec.speed.ttft_ms) {
        (Some(p), Some(t)) => d.say("  prefill     ").fixed0(console::from_tenths(p as nat)).say(
            " tok/s, ",
        ).decimal(t as nat).say(" ms to first token at ").put(
            tokens_spec(rec.fit.effective_context),
        ).say(" context\n"),
        _ => d.say("  prefill     not estimated (fp16 throughput unknown for this hardware)\n"),
    };
    d.say("\n  scores      quality ").decimal(rec.scores.quality as nat).say("  speed ").decimal(
        rec.scores.speed as nat,
    ).say("  fit ").decimal(rec.scores.fit as nat).say("  context ").decimal(
        rec.scores.context as nat,
    ).say("  →  ").decimal((rec.scores.composite / 100) as nat).say("\n")
}

/// One model in full.
pub open spec fn detail_spec(rec: RecData) -> Draft {
    speed_lines(memory_lines(fit_lines(Draft::empty(), rec), rec), rec)
}

/// What is told of a step that came to nothing.
pub open spec fn note_spec(d: Draft, note: Note, gpu: Option<Seq<u8>>) -> Draft {
    match note {
        Note::NvidiaFailed => d.say("note      nvidia-smi present but returned an error\n"),
        Note::AmdFailed => d.say("note      rocm-smi present but returned an error\n"),
        Note::NoAccelerator => d.say(
            "note      no accelerator detected; scoring against system RAM\n",
        ),
        Note::NotInTable => d.say("note      ").put(
            match gpu {
                Some(name) => name,
                None => Seq::empty(),
            },
        ).say(" is not in the bandwidth table; speed is a backend-constant estimate\n"),
    }
}

pub open spec fn notes_spec(d: Draft, notes: Seq<Note>, gpu: Option<Seq<u8>>, n: nat) -> Draft
    decreases n,
{
    if n == 0 {
        d
    } else {
        note_spec(notes_spec(d, notes, gpu, (n - 1) as nat), notes[n - 1], gpu)
    }
}

/// The machine at hand.
#[verifier::opaque]
pub open spec fn machine_lines(
    cpu: Seq<u8>,
    cores: usize,
    gpu: Option<Seq<u8>>,
    hw: Hardware,
) -> Draft {
    let d = Draft::empty().say("CPU       ").put(cpu).say(" (").decimal(cores as nat).say(
        " physical cores)\nRAM       ",
    ).decimal(hw.ram_mb as nat).say(" MiB total, ").decimal(hw.usable_ram()).say(
        " MiB usable after OS reserve\n",
    );
    let d = match gpu {
        Some(name) => d.say("GPU       ").put(name).say(" — ").decimal(hw.vram_mb as nat).say(
            " MiB ",
        ).say(
            if hw.unified {
                "unified\n"
            } else {
                "dedicated\n"
            },
        ),
        None => d.say("GPU       none detected\n"),
    };
    let d = d.say("Backend   ").say(hw.backend.name_spec()).say("\n");
    let (bw, source) = hw.gpu_bandwidth_spec();
    let d = if Single::nearest(0, 1).below(bw) {
        d.say("Bandwidth ").fixed0(bw).say(" GB/s (").say(source.name_spec()).say(")\n")
    } else {
        d.say("Bandwidth unknown — speed estimates use the backend constant\n")
    };
    if hw.tflops_fp16_x10 > 0 {
        d.say("fp16      ").fixed1(console::from_tenths(hw.tflops_fp16_x10 as nat)).say(" TFLOPS\n")
    } else {
        d.say("fp16      unknown — prefill and TTFT will not be estimated\n")
    }
}

/// The machine at hand, and what could not be found out about it.
pub open spec fn system_spec(
    cpu: Seq<u8>,
    cores: usize,
    gpu: Option<Seq<u8>>,
    hw: Hardware,
    notes: Seq<Note>,
) -> Draft {
    notes_spec(machine_lines(cpu, cores, gpu, hw), notes, gpu, notes.len())
}

// --- writing it -------------------------------------------------------------

/// A token count: thousands from a thousand on.
pub fn fmt_tokens(t: u32) -> (r: Vec<u8>)
    ensures
        r@ == tokens_spec(t),
{
    let mut out: Vec<u8> = Vec::new();
    if t >= 1000 {
        text::append(&mut out, Numeral::of((t / 1024) as u128).as_bytes());
        out.push(107);
    } else {
        text::append(&mut out, Numeral::of(t as u128).as_bytes());
    }
    assert(out@ =~= tokens_spec(t));
    out
}

fn put_params(page: &mut Page, m: u32)
    ensures
        final(page)@ == params_spec(old(page)@, m),
{
    if m >= 1000 {
        page.fixed1(Single::from_u32(m).over(Single::from_u32(1000)));
        page.say("B");
    } else {
        page.decimal(m as u128);
        page.say("M");
    }
}

fn tenths(n: u32) -> (r: Single)
    ensures
        r == console::from_tenths(n as nat),
{
    Single::from_u32(n).over(Single::from_u32(10))
}

/// A text as it stands inside a JSON string.
pub fn escape(s: &str) -> (r: Vec<u8>)
    ensures
        r@ == escaped(text::bytes(s)),
{
    let raw: &[u8] = s.as_bytes();
    let mut out: Vec<u8> = Vec::new();
    let mut i: usize = 0;
    while i < raw.len()
        invariant
            i <= raw@.len(),
            out@ == escaped(raw@.take(i as int)),
        decreases raw.len() - i,
    {
        assert(raw@.take(i + 1).drop_last() =~= raw@.take(i as int));
        if raw[i] == 92 || raw[i] == 34 {
            out.push(92);
        }
        out.push(raw[i]);
        i = i + 1;
    }
    assert(raw@.take(i as int) =~= raw@);
    out
}

fn put_row(page: &mut Page, rec: &Recommendation)
    ensures
        final(page)@ == row_spec(old(page)@, rec@),
{
    proof {
        reveal(row_spec);
    }
    page.left(text::shorten(rec.model.name(), 40), 40);
    page.say(" ");
    page.right(rec.fit.quant.name().as_bytes(), 8);
    page.say(" ");
    page.right(Numeral::of(rec.fit.memory.resident_mb() as u128).as_bytes(), 7);
    page.say(" MiB ");
    page.right(Numeral::fixed1(tenths(rec.speed.decode_tps_x10)).as_bytes(), 7);
    let mark: [u8; 1] = [console::mark(rec.speed.method)];
    assert(mark@ =~= seq![console::mark_spec(rec.speed.method)]);
    page.put(mark.as_slice());
    page.say(" ");
    page.right(rec.fit.verdict.name().as_bytes(), 10);
    page.say(" ");
    page.right(fmt_tokens(rec.fit.usable_context).as_slice(), 9);
    page.say(" ");
    page.right(Numeral::of((rec.scores.composite / 100) as u128).as_bytes(), 6);
    page.say("\n");
}

fn put_json_fit(page: &mut Page, rec: &Recommendation)
    ensures
        final(page)@ == json_fit(old(page)@, rec@),
{
    proof {
        reveal(json_fit);
    }
    page.say("  {\"name\":\"");
    page.put(escape(rec.model.name()).as_slice());
    page.say("\",\"params_m\":");
    page.decimal(rec.model.params_m() as u128);
    page.say(",\"quant\":\"");
    page.say(rec.fit.quant.name());
    page.say("\",\"verdict\":\"");
    page.say(rec.fit.verdict.name());
    page.say("\",\"run_mode\":\"");
    page.say(rec.fit.run_mode.name());
    page.say("\",\"memory_mb\":");
    page.decimal(rec.fit.memory.resident_mb() as u128);
    page.say(",\"pool_mb\":");
    page.decimal(rec.fit.pool_mb as u128);
    page.say(",\"utilization_pct\":");
    page.fixed1(tenths(rec.fit.utilization_pctx10 as u32));
}

fn put_json_speed(page: &mut Page, rec: &Recommendation)
    ensures
        final(page)@ == json_speed(old(page)@, rec@),
{
    proof {
        reveal(json_speed);
    }
    page.say(",\"decode_tps\":");
    page.fixed1(tenths(rec.speed.decode_tps_x10));
    page.say(",\"estimate_method\":\"");
    page.say(rec.speed.method.name());
    page.say("\",\"bandwidth_gbps\":");
    page.decimal(rec.speed.bandwidth_gbps as u128);
    page.say(",\"usable_context\":");
    page.decimal(rec.fit.usable_context as u128);
    page.say(",\"native_context\":");
    page.decimal(rec.model.context_length() as u128);
    page.say(",\"kv_source\":\"");
    page.say(
        match rec.fit.memory.kv_source {
            KvSource::Metadata => "metadata",
            KvSource::Estimated => "estimated",
        },
    );
    page.say("\",\"prefill_tps\":");
    match rec.speed.prefill_tps_x10 {
        Some(v) => page.fixed1(tenths(v)),
        None => page.say("null"),
    }
    page.say(",\"ttft_ms\":");
    match rec.speed.ttft_ms {
        Some(v) => page.decimal(v as u128),
        None => page.say("null"),
    }
}

fn put_json_scores(page: &mut Page, rec: &Recommendation)
    ensures
        final(page)@ == json_scores(old(page)@, rec@),
{
    proof {
        reveal(json_scores);
    }
    page.say(",\"scores\":{\"quality\":");
    page.decimal(rec.scores.quality as u128);
    page.say(",\"speed\":");
    page.decimal(rec.scores.speed as u128);
    page.say(",\"fit\":");
    page.decimal(rec.scores.fit as u128);
    page.say(",\"context\":");
    page.decimal(rec.scores.context as u128);
    page.say(",\"composite\":");
    page.decimal(rec.scores.composite as u128);
    page.say("}}");
}

fn put_json(page: &mut Page, rec: &Recommendation)
    ensures
        final(page)@ == json_item(old(page)@, rec@),
{
    put_json_fit(page, rec);
    put_json_speed(page, rec);
    put_json_scores(page, rec);
}

/// The first `n` entries of a ranking, for machines to read.
fn json_list<const N: usize>(top: &TopN<'_, N>, n: usize) -> (r: Page)
    requires
        n <= top@.len(),
    ensures
        r@ == json_spec(top@, n as nat),
{
    let mut page: Page = Page::new();
    page.say("{\"models\":[\n");
    let ghost start: Draft = page@;
    let mut i: usize = 0;
    while i < n
        invariant
            i <= n <= top@.len(),
            page@ == json_items(start, top@, i as nat),
        decreases n - i,
    {
        if i > 0 {
            page.say(",\n");
        }
        if let Some(rec) = top.get(i) {
            put_json(&mut page, rec);
        }
        i = i + 1;
    }
    page.say("\n]}\n");
    page
}

/// The machine that a ranking is of stands over it.
fn ranking<const N: usize>(
    hw: &Hardware,
    gpu: Option<&str>,
    cli: &Cli,
    top: &TopN<'_, N>,
    count: usize,
) -> (r: Page)
    ensures
        r@ == ranking_spec(
            *hw,
            match gpu {
                Some(s) => Some(text::bytes(s)),
                None => None,
            },
            cli@,
            top@,
            count as nat,
        ),
{
    proof {
        reveal(ranking_spec);
    }
    let mut page: Page = Page::new();
    page.say(
        match gpu {
            Some(name) => name,
            None => "CPU only",
        },
    );
    page.say(" — ");
    page.decimal(hw.ram_mb as u128);
    page.say(" MiB RAM, ");
    page.decimal(hw.vram_mb as u128);
    page.say(" MiB VRAM, ");
    page.say(hw.backend.name());
    page.say("\n");
    if let Some(u) = cli.use_case {
        page.say("use case: ");
        page.say(u.name());
        page.say("\n");
    }
    let n: usize = if cli.limit < top.len() {
        cli.limit
    } else {
        top.len()
    };
    page.decimal(n as u128);
    page.say(" of ");
    page.decimal(count as u128);
    page.say(" models scored\n\n");
    page.say("MODEL                                       QUANT    MEMORY    TOK/S        FIT   CONTEXT  SCORE\n");
    let ghost start: Draft = page@;
    let mut i: usize = 0;
    while i < n
        invariant
            i <= n <= top@.len(),
            page@ == rows_spec(start, top@, i as nat),
        decreases n - i,
    {
        if let Some(rec) = top.get(i) {
            put_row(&mut page, rec);
        }
        i = i + 1;
    }
    page.say(
        "\nlegend: MEMORY is resident footprint; CONTEXT is what actually fits, not the\nadvertised window. Speed is a roofline estimate unless marked (~).\n",
    );
    page
}

fn put_fit(page: &mut Page, rec: &Recommendation)
    ensures
        final(page)@ == fit_lines(old(page)@, rec@),
{
    proof {
        reveal(fit_lines);
    }
    page.say(rec.model.name());
    page.say("\n  ");
    put_params(page, rec.model.params_m());
    page.say(" params");
    if rec.model.is_moe() {
        page.say(" (");
        put_params(page, rec.model.active_params_m());
        page.say(" active)");
    }
    page.say(", ");
    page.put(fmt_tokens(rec.model.context_length()).as_slice());
    page.say(" native context, ");
    page.say(rec.model.use_case().name());
    page.say("\n\n  verdict     ");
    page.say(rec.fit.verdict.name());
    page.say(" on ");
    page.say(rec.fit.run_mode.name());
    page.say("\n  quant       ");
    page.say(rec.fit.quant.name());
    page.say("\n");
}

fn put_memory(page: &mut Page, rec: &Recommendation)
    ensures
        final(page)@ == memory_lines(old(page)@, rec@),
{
    proof {
        reveal(memory_lines);
    }
    let f: &Fit = &rec.fit;
    page.say("  memory      ");
    page.decimal(f.memory.resident_mb() as u128);
    page.say(" MiB of ");
    page.decimal(f.pool_mb as u128);
    page.say(" MiB pool (");
    page.fixed1(tenths(f.utilization_pctx10 as u32));
    page.say("%)\n              weights ");
    page.decimal(f.memory.weights_mb as u128);
    page.say(" MiB + KV ");
    page.decimal(f.memory.kv_cache_mb as u128);
    page.say(" MiB (");
    page.say(
        match f.memory.kv_source {
            KvSource::Metadata => "from model config",
            KvSource::Estimated => "estimated from size class",
        },
    );
    page.say(") + overhead ");
    page.decimal(f.memory.overhead_mb as u128);
    page.say(" MiB\n");
    if f.memory.offloaded_mb > 0 {
        page.say("              ");
        page.decimal(f.memory.offloaded_mb as u128);
        page.say(" MiB of inactive experts offloaded to RAM\n");
    }
    page.say("  context     ");
    page.put(fmt_tokens(f.usable_context).as_slice());
    page.say(" usable of ");
    page.put(fmt_tokens(rec.model.context_length()).as_slice());
    page.say(" advertised\n\n");
}

fn put_speed(page: &mut Page, rec: &Recommendation)
    ensures
        final(page)@ == speed_lines(old(page)@, rec@),
{
    proof {
        reveal(speed_lines);
    }
    page.say("  decode      ");
    page.fixed1(tenths(rec.speed.decode_tps_x10));
    page.say(" tok/s  (");
    page.say(rec.speed.method.name());
    page.say(" at ");
    page.decimal(rec.speed.bandwidth_gbps as u128);
    page.say(" GB/s, ");
    page.fixed0(rec.speed.efficiency.times(Single::from_u32(100)));
    page.say("% efficiency)\n");
    match (rec.speed.prefill_tps_x10, rec.speed.ttft_ms) {
        (Some(p), Some(t)) => {
            page.say("  prefill     ");
            page.fixed0(tenths(p));
            page.say(" tok/s, ");
            page.decimal(t as u128);
            page.say(" ms to first token at ");
            page.put(fmt_tokens(rec.fit.effective_context).as_slice());
            page.say(" context\n");
        },
        _ => {
            page.say("  prefill     not estimated (fp16 throughput unknown for this hardware)\n");
        },
    }
    page.say("\n  scores      quality ");
    page.decimal(rec.scores.quality as u128);
    page.say("  speed ");
    page.decimal(rec.scores.speed as u128);
    page.say("  fit ");
    page.decimal(rec.scores.fit as u128);
    page.say("  context ");
    page.decimal(rec.scores.context as u128);
    page.say("  →  ");
    page.decimal((rec.scores.composite / 100) as u128);
    page.say("\n");
}

// --- the commands -----------------------------------------------------------

/// The machine at hand, and what could not be found out about it.
pub fn cmd_system(d: &Detected) -> (r: Page)
    ensures
        r@ == system_spec(
            encode_utf8(d.cpu_name@),
            d.cpu_cores,
            cli::bytes_of(d.gpu_name),
            d.hardware,
            d.notes@,
        ),
{
    proof {
        reveal(machine_lines);
    }
    let hw: Hardware = d.hardware;
    let mut page: Page = Page::new();
    page.say("CPU       ");
    page.say(d.cpu_name.as_str());
    page.say(" (");
    page.decimal(d.cpu_cores as u128);
    page.say(" physical cores)\nRAM       ");
    page.decimal(hw.ram_mb as u128);
    page.say(" MiB total, ");
    page.decimal(hw.usable_ram_mb() as u128);
    page.say(" MiB usable after OS reserve\n");
    match &d.gpu_name {
        Some(name) => {
            page.say("GPU       ");
            page.say(name.as_str());
            page.say(" — ");
            page.decimal(hw.vram_mb as u128);
            page.say(" MiB ");
            page.say(
                if hw.unified {
                    "unified\n"
                } else {
                    "dedicated\n"
                },
            );
        },
        None => {
            page.say("GPU       none detected\n");
        },
    }
    page.say("Backend   ");
    page.say(hw.backend.name());
    page.say("\n");
    let (bw, source): (Single, BandwidthSource) = hw.resolve_gpu_bandwidth();
    if Single::from_u32(0).lt(bw) {
        page.say("Bandwidth ");
        page.fixed0(bw);
        page.say(" GB/s (");
        page.say(source.name());
        page.say(")\n");
    } else {
        page.say("Bandwidth unknown — speed estimates use the backend constant\n");
    }
    if hw.tflops_fp16_x10 > 0 {
        page.say("fp16      ");
        page.fixed1(tenths(hw.tflops_fp16_x10 as u32));
        page.say(" TFLOPS\n");
    } else {
        page.say("fp16      unknown — prefill and TTFT will not be estimated\n");
    }
    let ghost start: Draft = page@;
    let ghost gpu: Option<Seq<u8>> = cli::bytes_of(d.gpu_name);
    assert(start == machine_lines(encode_utf8(d.cpu_name@), d.cpu_cores, gpu, hw));
    let mut i: usize = 0;
    while i < d.notes.len()
        invariant
            i <= d.notes@.len(),
            gpu == cli::bytes_of(d.gpu_name),
            page@ == notes_spec(start, d.notes@, gpu, i as nat),
        decreases d.notes.len() - i,
    {
        put_note(&mut page, d.notes[i], &d.gpu_name);
        i = i + 1;
    }
    page
}

fn put_note(page: &mut Page, note: Note, gpu: &Option<String>)
    ensures
        final(page)@ == note_spec(old(page)@, note, cli::bytes_of(*gpu)),
{
    match note {
        Note::NvidiaFailed => {
            page.say("note      nvidia-smi present but returned an error\n");
        },
        Note::AmdFailed => {
            page.say("note      rocm-smi present but returned an error\n");
        },
        Note::NoAccelerator => {
            page.say("note      no accelerator detected; scoring against system RAM\n");
        },
        Note::NotInTable => {
            page.say("note      ");
            page.say(
                match gpu {
                    Some(name) => name.as_str(),
                    None => text::nothing(),
                },
            );
            page.say(" is not in the bandwidth table; speed is a backend-constant estimate\n");
        },
    }
}

/// What a ranking is to hold.
pub open spec fn filter_spec(cli: CliData) -> Filter {
    Filter {
        use_case: cli.only,
        min_verdict: cli.min_fit,
        min_tps: None,
        min_context: None,
        max_params_m: None,
    }
}

/// The ranking of a catalog on the machine that is meant. Sixty-four is the
/// longest list that anyone reads.
pub open spec fn top_spec(c: CatalogData, hw: Hardware, cli: CliData) -> Seq<RecData> {
    recommend::ranked(c, cli::overridden(hw, cli), cli.opts, filter_spec(cli), 64, c.count)
}

/// The accelerator that is named over a ranking.
pub open spec fn display_gpu(detected: Option<Seq<u8>>, cli: CliData) -> Option<Seq<u8>> {
    match cli.gpu_override {
        Some(name) => Some(name),
        None => detected,
    }
}

/// The answer to `recommend`.
pub open spec fn recommend_spec(
    c: CatalogData,
    cli: CliData,
    hw: Hardware,
    gpu: Option<Seq<u8>>,
) -> Draft {
    let top = top_spec(c, hw, cli);
    if cli.json {
        json_spec(top, shown(top, cli.limit))
    } else {
        ranking_spec(cli::overridden(hw, cli), display_gpu(gpu, cli), cli, top, c.count)
    }
}

/// Rank a catalog for the machine that is meant.
pub fn cmd_recommend(catalog: &Catalog<'_>, cli: &Cli, d: &Detected) -> (r: Page)
    ensures
        r@ == recommend_spec(catalog@, cli@, d.hardware, cli::bytes_of(d.gpu_name)),
{
    let hw: Hardware = apply_overrides(d.hardware, cli);
    let filter: Filter = Filter {
        use_case: cli.only,
        min_verdict: cli.min_fit,
        min_tps: None,
        min_context: None,
        max_params_m: None,
    };
    let top: TopN<'_, 64> = recommend::recommend::<64>(catalog, &hw, &cli.opts, &filter);
    if cli.json {
        let n: usize = if cli.limit < top.len() {
            cli.limit
        } else {
            top.len()
        };
        return json_list(&top, n);
    }
    let gpu: Option<&str> = match &cli.gpu_override {
        Some(name) => Some(name.as_str()),
        None => match &d.gpu_name {
            Some(name) => Some(name.as_str()),
            None => None,
        },
    };
    ranking(&hw, gpu, cli, &top, catalog.len())
}

/// Why a model was not scored.
#[derive(Clone, Copy, PartialEq, Eq, Structural, Debug)]
pub enum FitError {
    /// No model was named.
    NoName,
    /// The catalog has none of that name.
    NoModel,
}

/// The answer to `fit`.
pub open spec fn fit_spec(c: CatalogData, cli: CliData, hw: Hardware) -> Result<Draft, FitError> {
    match cli.positional {
        None => Err(FitError::NoName),
        Some(name) => match c.find(name) {
            None => Err(FitError::NoModel),
            Some(i) => {
                let rec = recommend::evaluated(
                    c,
                    c.model(i),
                    cli::overridden(hw, cli),
                    cli.opts,
                );
                Ok(
                    if cli.json {
                        json_spec(seq![rec], 1)
                    } else {
                        detail_spec(rec)
                    },
                )
            },
        },
    }
}

/// Score one model on the machine that is meant.
pub fn cmd_fit(catalog: &Catalog<'_>, cli: &Cli, d: &Detected) -> (r: Result<Page, FitError>)
    ensures
        match r {
            Ok(page) => fit_spec(catalog@, cli@, d.hardware) == Ok::<Draft, FitError>(page@),
            Err(e) => fit_spec(catalog@, cli@, d.hardware) == Err::<Draft, FitError>(e),
        },
{
    let name: &str = match &cli.positional {
        None => {
            return Err(FitError::NoName);
        },
        Some(name) => name.as_str(),
    };
    let model: Model<'_> = match catalog.find(name) {
        None => {
            return Err(FitError::NoModel);
        },
        Some(model) => model,
    };
    let hw: Hardware = apply_overrides(d.hardware, cli);
    let rec: Recommendation<'_> = evaluate_model(catalog, &model, &hw, &cli.opts);
    let mut page: Page = Page::new();
    if cli.json {
        page.say("{\"models\":[\n");
        let ghost start: Draft = page@;
        put_json(&mut page, &rec);
        assert(json_items(start, seq![rec@], 1) == page@) by {
            reveal_with_fuel(json_items, 2);
        }
        page.say("\n]}\n");
    } else {
        put_fit(&mut page, &rec);
        put_memory(&mut page, &rec);
        put_speed(&mut page, &rec);
    }
    Ok(page)
}

// --- laws -------------------------------------------------------------------

/// A use case reweights a ranking; it hides no model from it.
pub proof fn law_a_use_case_hides_nothing(cli: CliData, use_case: Option<UseCase>)
    ensures
        filter_spec(CliData { use_case, ..cli }) == filter_spec(cli),
{
}

/// Names that differ still differ inside a JSON string.
pub proof fn law_escaping_loses_nothing(a: Seq<u8>, b: Seq<u8>)
    requires
        escaped(a) == escaped(b),
    ensures
        a == b,
{
    lemma_unescaped(a);
    lemma_unescaped(b);
}

/// A text with its leading backslashes taken off again.
spec fn unescaped(s: Seq<u8>) -> Seq<u8>
    decreases s.len(),
{
    if s.len() == 0 {
        Seq::empty()
    } else if s.len() >= 2 && (s.last() == 92 || s.last() == 34) {
        unescaped(s.take(s.len() - 2)).push(s.last())
    } else {
        unescaped(s.drop_last()).push(s.last())
    }
}

proof fn lemma_unescaped(s: Seq<u8>)
    ensures
        unescaped(escaped(s)) == s,
    decreases s.len(),
{
    if s.len() > 0 {
        lemma_unescaped(s.drop_last());
        let before = escaped(s.drop_last());
        let out = escaped(s);
        if s.last() == 92 || s.last() == 34 {
            assert(out.take(out.len() - 2) =~= before);
        } else {
            assert(out.drop_last() =~= before);
        }
        assert(s =~= s.drop_last().push(s.last()));
    } else {
        assert(s =~= Seq::empty());
    }
}

} // verus!
