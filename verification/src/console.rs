//! The device console: take a line, render a report, allocate nothing.
//!
//! It owns no input or output. Firmware hands it a line of text and a buffer to
//! write into, so it behaves on a host exactly as on the chip. The state of a
//! session is a [`Console`]: a machine and a few options.

use vstd::prelude::*;
use vstd::utf8::*;

use crate::catalog::flags;
use crate::catalog::{hw_key, Catalog, CatalogData, UseCase};
use crate::fit::{Fit, KvSource, Opts, Verdict};
use crate::float::Single;
use crate::hardware;
use crate::hardware::{lookup_gpu, Backend, BandwidthSource, Hardware};
use crate::numeral;
use crate::numeral::Numeral;
use crate::quant::KvQuant;
use crate::recommend;
use crate::recommend::{evaluate_model, Filter, RecData, Recommendation, TopN};
use crate::report::{ReportBuf, Sink};
use crate::speed::EstimateMethod;
use crate::text;

pub mod lines;
pub mod settings;

verus! {

/// What a command did, so that the caller knows what to show.
#[derive(Clone, Copy, PartialEq, Eq, Structural, Debug)]
pub enum Outcome {
    /// Handled; the buffer holds output.
    Done,
    /// Not understood; the buffer holds a hint.
    Unknown,
    /// An empty line; there is nothing to show.
    Empty,
}

/// A session: the machine being asked about, and the options of the question.
pub struct Console {
    pub hardware: Hardware,
    pub opts: Opts,
    pub filter: Filter,
    pub limit: usize,
}

/// A number of the machine that a command sets.
#[derive(Clone, Copy, PartialEq, Eq, Structural)]
pub enum Field {
    Ram,
    Vram,
    Bandwidth,
    Tflops,
}

// --- what is written --------------------------------------------------------

impl Sink {
    pub open spec fn decimal(self, n: nat) -> Sink {
        self.put(numeral::decimal(n))
    }

    /// The buffer after `n` spaces.
    pub open spec fn spaces(self, n: int) -> Sink
        decreases n,
    {
        if n <= 0 {
            self
        } else {
            self.spaces(n - 1).put(seq![32u8])
        }
    }

    /// The buffer after an ASCII text, set to the right of a column.
    pub open spec fn right(self, s: Seq<u8>, width: int) -> Sink {
        self.spaces(width - s.len()).put(s)
    }

    /// The buffer after a text, set to the left of a column.
    pub open spec fn left(self, s: Seq<u8>, width: int) -> Sink {
        self.put(s).spaces(width - text::char_count(s))
    }
}

/// A figure in tenths, as a number.
pub open spec fn from_tenths(n: nat) -> Single {
    Single::nearest(n, 1).div_spec(Single::nearest(10, 1))
}

/// Token counts: thousands from 1024 on.
pub open spec fn tokens_spec(s: Sink, t: u32) -> Sink {
    if t >= 1024 {
        s.decimal((t / 1024) as nat).say("k")
    } else {
        s.decimal(t as nat)
    }
}

/// Parameter counts: billions from a thousand million on.
pub open spec fn params_spec(s: Sink, m: u32) -> Sink {
    if m >= 1000 {
        s.put(
            numeral::fixed1(Single::nearest(m as nat, 1).div_spec(Single::nearest(1000, 1))),
        ).say("B")
    } else {
        s.decimal(m as nat).say("M")
    }
}

/// The mark of where a throughput comes from.
pub open spec fn mark_spec(method: EstimateMethod) -> u8 {
    match method {
        EstimateMethod::Measured => 42,
        EstimateMethod::MeasuredAdjusted => 94,
        EstimateMethod::Calibrated => 43,
        EstimateMethod::Roofline => 32,
        EstimateMethod::BackendConstant => 126,
    }
}

#[verifier::opaque]
pub open spec fn detail_spec(s: Sink, rec: RecData) -> Sink {
    let f = rec.fit;
    let s = s.put(rec.model.name()).say("\n");
    let s = params_spec(s, rec.model.params_m()).say(" params").say(
        if rec.model.has_flag(flags::MOE) {
            " (MoE)"
        } else {
            ""
        },
    ).say("\n\n");
    let s = s.say(f.verdict.name_spec()).say(" on ").say(f.run_mode.name_spec()).say("\n");
    let s = s.say("quant  ").say(f.quant.name_spec()).say("\n");
    let s = s.say("mem    ").decimal(f.memory.resident_spec() as nat).say(" / ").decimal(
        f.pool_mb as nat,
    ).say(" MiB  (").put(numeral::fixed0(from_tenths(f.utilization_pctx10 as nat))).say("%)\n");
    let s = s.say("  w ").decimal(f.memory.weights_mb as nat).say(" + kv ").decimal(
        f.memory.kv_cache_mb as nat,
    ).say(" + oh ").decimal(f.memory.overhead_mb as nat).say("\n");
    let s = if f.memory.kv_source == KvSource::Estimated {
        s.say("  (kv estimated, no arch metadata)\n")
    } else {
        s
    };
    let s = tokens_spec(s.say("ctx    "), f.usable_context).say(" usable / ");
    let s = tokens_spec(s, rec.model.context_length()).say(" native\n");
    let s = s.say("speed  ").put(
        numeral::fixed1(from_tenths(rec.speed.decode_tps_x10 as nat)),
    ).say(" tok/s  [").say(rec.speed.method.name_spec()).say("]\n");
    let s = match rec.speed.ttft_ms {
        Some(ms) => s.say("ttft   ").decimal(ms as nat).say(" ms\n"),
        None => s.say("ttft   not estimated\n"),
    };
    s.say("score  q").decimal(rec.scores.quality as nat).say(" s").decimal(
        rec.scores.speed as nat,
    ).say(" f").decimal(rec.scores.fit as nat).say(" c").decimal(
        rec.scores.context as nat,
    ).say(" = ").decimal((rec.scores.composite / 100) as nat)
}

#[verifier::opaque]
pub open spec fn hardware_spec(s: Sink, hw: Hardware, kv: KvQuant) -> Sink {
    let s = s.say("ram    ").decimal(hw.ram_mb as nat).say(" MiB (").decimal(
        hw.usable_ram(),
    ).say(" usable)\nvram   ").decimal(hw.vram_mb as nat).say(" MiB").say(
        if hw.unified {
            " unified"
        } else {
            ""
        },
    ).say("\nback   ").say(hw.backend.name_spec()).say("\n");
    let (bw, source) = hw.gpu_bandwidth_spec();
    let s = if Single::nearest(0, 1).below(bw) {
        s.say("bw     ").put(numeral::fixed0(bw)).say(" GB/s (").say(source.name_spec()).say(")\n")
    } else {
        s.say("bw     unknown — estimates use backend constant\n")
    };
    let s = if hw.tflops_fp16_x10 > 0 {
        s.say("fp16   ").put(numeral::fixed1(from_tenths(hw.tflops_fp16_x10 as nat))).say(
            " TFLOPS\n",
        )
    } else {
        s.say("fp16   unknown — no prefill estimate\n")
    };
    s.say("kv     ").say(kv.name_spec())
}

/// One line of a ranking.
pub open spec fn row_spec(s: Sink, rec: RecData) -> Sink {
    s.left(text::shortened(rec.model.name(), 25), 26).right(
        text::bytes(rec.fit.quant.name_spec()),
        8,
    ).right(numeral::fixed1(from_tenths(rec.speed.decode_tps_x10 as nat)), 7).put(
        seq![mark_spec(rec.speed.method)],
    ).right(text::bytes(rec.fit.verdict.name_spec()), 8).say("\n")
}

/// The first `n` lines of a ranking.
pub open spec fn rows_spec(s: Sink, top: Seq<RecData>, n: nat) -> Sink
    decreases n,
{
    if n == 0 {
        s
    } else {
        row_spec(rows_spec(s, top, (n - 1) as nat), top[n - 1])
    }
}

/// Whether any of the first `n` lines carries a mark.
pub open spec fn any_marked(top: Seq<RecData>, n: nat) -> bool
    decreases n,
{
    n > 0 && (any_marked(top, (n - 1) as nat) || mark_spec(top[n - 1].speed.method) != 32)
}

#[verifier::opaque]
pub open spec fn ranking_spec(s: Sink, top: Seq<RecData>, limit: nat) -> Sink {
    if top.len() == 0 {
        s.say(
            "nothing in the catalog runs on this hardware.\ntry `kv q8`, `ctx 4096`, or more ram.",
        )
    } else {
        let n = if limit < top.len() {
            limit
        } else {
            top.len()
        };
        let s = rows_spec(s.say("MODEL                        QUANT   TOK/S      FIT\n"), top, n);
        let s = if any_marked(top, n) {
            s.say("* measured here  ^ rescaled  + calibrated\n")
        } else {
            s
        };
        if s.overflowed {
            s.say("\n(truncated — lower `limit`)")
        } else {
            s
        }
    }
}

pub open spec fn help_text() -> &'static str {
    "ram <MiB>      system memory\nvram <MiB>     accelerator memory\ngpu <name>     look up bandwidth, e.g. rtx 4090\nbw <GB/s>      set bandwidth directly\ntflops <n>     fp16 throughput, enables ttft\ncpu            no accelerator\nuse <case>     coding|reasoning|chat|...|any\nctx <tokens>   cap context\nkv <f16|q8|q4> kv cache precision\nmin <level>    minimum fit to list\nlimit <n>      rows to show\nhw             show current machine\ngo             rank the catalog\nfit <model>    score one model"
}

// --- what a command does ----------------------------------------------------

/// The number a command was given, if it was given one.
pub open spec fn argument(rest: Seq<u8>) -> Option<nat> {
    text::plain_number(text::trimmed(rest), u32::MAX as nat)
}

/// What `gpu` makes of a machine.
#[verifier::opaque]
pub open spec fn gpu_machine(hw: Hardware, name: Seq<u8>) -> Hardware {
    let known = hardware::gpu_answer(name);
    let (bw, tf) = match known {
        Some(k) => k,
        None => (0u16, 0u16),
    };
    Hardware {
        hw_key: crate::catalog::hw_key_spec(name),
        gpu_bandwidth_gbps: bw,
        tflops_fp16_x10: tf,
        backend: if known is Some && hw.backend.cpu() {
            Backend::Cuda
        } else {
            hw.backend
        },
        ..hw
    }
}

/// What `gpu` writes.
#[verifier::opaque]
pub open spec fn gpu_report(s: Sink, hw: Hardware, name: Seq<u8>) -> Sink {
    match hardware::gpu_answer(name) {
        Some((bw, tf)) => {
            let s = s.put(name).say(": ").decimal(bw as nat).say(" GB/s, ").put(
                numeral::fixed1(from_tenths(tf as nat)),
            ).say(" TFLOPS fp16");
            if hw.vram_mb == 0 {
                s.say("\nset vram too, e.g. `vram 24576`")
            } else {
                s
            }
        },
        None => s.put(name).say(
            " is not in the table — set `bw <GB/s>` for a real estimate",
        ),
    }
}

impl Field {
    pub open spec fn label_spec(self) -> &'static str {
        match self {
            Field::Ram => "ram",
            Field::Vram => "vram",
            Field::Bandwidth => "bw",
            Field::Tflops => "tflops",
        }
    }

    /// The machine with the number set.
    pub open spec fn set_spec(self, hw: Hardware, v: nat) -> Hardware {
        match self {
            Field::Ram => Hardware { ram_mb: v as u32, ..hw },
            Field::Vram => Hardware {
                vram_mb: v as u32,
                backend: if v > 0 && hw.backend.cpu() {
                    Backend::Cuda
                } else {
                    hw.backend
                },
                ..hw
            },
            Field::Bandwidth => Hardware {
                gpu_bandwidth_gbps: if v < 65535 {
                    v as u16
                } else {
                    65535
                },
                ..hw
            },
            Field::Tflops => Hardware {
                tflops_fp16_x10: if v * 10 < 65535 {
                    (v * 10) as u16
                } else {
                    65535
                },
                ..hw
            },
        }
    }
}

/// After a command that sets a number of the machine.
#[verifier::opaque]
pub open spec fn after_number(
    c: Console,
    field: Field,
    rest: Seq<u8>,
    s: Sink,
) -> (Console, Sink, Outcome) {
    match argument(rest) {
        Some(v) => (
            Console { hardware: field.set_spec(c.hardware, v), ..c },
            s.say(field.label_spec()).say(" = ").decimal(v),
            Outcome::Done,
        ),
        None => (c, s.say(field.label_spec()).say(" needs a number"), Outcome::Unknown),
    }
}

/// After `limit`.
#[verifier::opaque]
pub open spec fn after_limit(c: Console, rest: Seq<u8>, s: Sink) -> (Console, Sink) {
    match argument(rest) {
        Some(v) => {
            let limit = if v < 1 {
                1
            } else if v > 32 {
                32
            } else {
                v
            };
            (Console { limit: limit as usize, ..c }, s.say("limit = ").decimal(limit))
        },
        None => (c, s.say("limit needs a number")),
    }
}

/// After `gpu`.
#[verifier::opaque]
pub open spec fn after_gpu(c: Console, rest: Seq<u8>, s: Sink) -> (Console, Sink) {
    if rest.len() == 0 {
        (c, s.say("gpu <name>, e.g. `gpu rtx 4090`"))
    } else {
        (
            Console { hardware: gpu_machine(c.hardware, rest), ..c },
            gpu_report(s, c.hardware, rest),
        )
    }
}

/// After `cpu`.
#[verifier::opaque]
pub open spec fn after_cpu(c: Console, s: Sink) -> (Console, Sink) {
    (
        Console {
            hardware: Hardware {
                vram_mb: 0,
                gpu_bandwidth_gbps: 0,
                tflops_fp16_x10: 0,
                unified: false,
                backend: Backend::CpuX86,
                hw_key: 0,
                ..c.hardware
            },
            ..c
        },
        s.say("scoring against system RAM only"),
    )
}

/// After `use`.
#[verifier::opaque]
pub open spec fn after_use(c: Console, rest: Seq<u8>, s: Sink) -> (Console, Sink) {
    match UseCase::parse_spec(rest) {
        Some(u) => (
            Console { opts: Opts { use_case: Some(u), ..c.opts }, ..c },
            s.say("use case = ").say(u.name_spec()),
        ),
        None => if rest == text::bytes("any") || rest.len() == 0 {
            (
                Console { opts: Opts { use_case: None, ..c.opts }, ..c },
                s.say("use case = any"),
            )
        } else {
            (c, s.say("use <general|coding|reasoning|chat|multimodal|embedding|any>"))
        },
    }
}

/// After `ctx`.
#[verifier::opaque]
pub open spec fn after_ctx(c: Console, rest: Seq<u8>, s: Sink) -> (Console, Sink) {
    match argument(rest) {
        Some(v) => (
            Console { opts: Opts { context: Some(v as u32), ..c.opts }, ..c },
            s.say("context capped at ").decimal(v),
        ),
        None => (
            Console { opts: Opts { context: None, ..c.opts }, ..c },
            s.say("context = model native"),
        ),
    }
}

/// After `kv`.
#[verifier::opaque]
pub open spec fn after_kv(c: Console, rest: Seq<u8>, s: Sink) -> (Console, Sink) {
    let kv = if rest == text::bytes("q8") {
        KvQuant::Q8
    } else if rest == text::bytes("q4") {
        KvQuant::Q4
    } else {
        KvQuant::F16
    };
    (
        Console { opts: Opts { kv_quant: kv, ..c.opts }, ..c },
        s.say("kv cache = ").say(kv.name_spec()),
    )
}

/// After `min`.
#[verifier::opaque]
pub open spec fn after_min(c: Console, rest: Seq<u8>, s: Sink) -> (Console, Sink) {
    let min = if rest == text::bytes("perfect") {
        Some(Verdict::Perfect)
    } else if rest == text::bytes("good") {
        Some(Verdict::Good)
    } else if rest == text::bytes("marginal") {
        Some(Verdict::Marginal)
    } else {
        None
    };
    (
        Console { filter: Filter { min_verdict: min, ..c.filter }, ..c },
        s.say("minimum fit = ").say(
            match min {
                Some(v) => v.name_spec(),
                None => "runnable",
            },
        ),
    )
}

/// What `fit` writes.
#[verifier::opaque]
pub open spec fn fit_report(c: Console, rest: Seq<u8>, cat: CatalogData, s: Sink) -> Sink {
    if rest.len() == 0 {
        s.say("fit <model name>")
    } else {
        match cat.find(rest) {
            Some(i) => detail_spec(
                s,
                recommend::evaluated(cat, cat.model(i), c.hardware, c.opts),
            ),
            None => s.say("no model matching \"").put(rest).say("\""),
        }
    }
}

/// A command that is always understood.
pub open spec fn done(after: (Console, Sink)) -> (Console, Sink, Outcome) {
    (after.0, after.1, Outcome::Done)
}

/// The session, the report and the outcome after a command with its argument.
pub open spec fn obeyed(
    c: Console,
    cmd: Seq<u8>,
    rest: Seq<u8>,
    cat: CatalogData,
    s: Sink,
) -> (Console, Sink, Outcome) {
    if cmd == text::bytes("help") || cmd == text::bytes("?") {
        done((c, s.say(help_text())))
    } else if cmd == text::bytes("ram") {
        after_number(c, Field::Ram, rest, s)
    } else if cmd == text::bytes("vram") {
        after_number(c, Field::Vram, rest, s)
    } else if cmd == text::bytes("bw") {
        after_number(c, Field::Bandwidth, rest, s)
    } else if cmd == text::bytes("tflops") {
        after_number(c, Field::Tflops, rest, s)
    } else if cmd == text::bytes("limit") {
        done(after_limit(c, rest, s))
    } else if cmd == text::bytes("gpu") {
        done(after_gpu(c, rest, s))
    } else if cmd == text::bytes("cpu") {
        done(after_cpu(c, s))
    } else if cmd == text::bytes("use") {
        done(after_use(c, rest, s))
    } else if cmd == text::bytes("ctx") {
        done(after_ctx(c, rest, s))
    } else if cmd == text::bytes("kv") {
        done(after_kv(c, rest, s))
    } else if cmd == text::bytes("min") {
        done(after_min(c, rest, s))
    } else if cmd == text::bytes("hw") {
        done((c, hardware_spec(s, c.hardware, c.opts.kv_quant)))
    } else if cmd == text::bytes("go") || cmd == text::bytes("list") {
        done(
            (
                c,
                ranking_spec(
                    s,
                    recommend::ranked(cat, c.hardware, c.opts, c.filter, 32, cat.count),
                    c.limit as nat,
                ),
            ),
        )
    } else if cmd == text::bytes("fit") {
        done((c, fit_report(c, rest, cat, s)))
    } else {
        (c, s.say("? ").put(cmd).say(" — type `help`"), Outcome::Unknown)
    }
}

/// The command of a line and its argument.
pub open spec fn parted(line: Seq<u8>) -> (Seq<u8>, Seq<u8>) {
    let (cmd, rest) = text::split_spec(text::trimmed(line), 32);
    (cmd, text::trimmed(rest))
}

/// The session, the report and the outcome after a line.
pub open spec fn handled(
    c: Console,
    line: Seq<u8>,
    cat: CatalogData,
    cap: nat,
) -> (Console, Sink, Outcome) {
    if text::trimmed(line).len() == 0 {
        (c, Sink::empty(cap), Outcome::Empty)
    } else {
        obeyed(c, parted(line).0, parted(line).1, cat, Sink::empty(cap))
    }
}

// --- writing ----------------------------------------------------------------

impl<const N: usize> ReportBuf<N> {
    fn number(&mut self, n: u32)
        ensures
            final(self)@ == old(self)@.decimal(n as nat),
    {
        let digits: Numeral = Numeral::of(n as u128);
        self.put(digits.as_bytes());
    }

    fn write_fixed0(&mut self, v: Single)
        ensures
            final(self)@ == old(self)@.put(numeral::fixed0(v)),
    {
        let digits: Numeral = Numeral::fixed0(v);
        self.put(digits.as_bytes());
    }

    fn write_fixed1(&mut self, v: Single)
        ensures
            final(self)@ == old(self)@.put(numeral::fixed1(v)),
    {
        let digits: Numeral = Numeral::fixed1(v);
        self.put(digits.as_bytes());
    }

    fn pad(&mut self, n: usize)
        ensures
            final(self)@ == old(self)@.spaces(n as int),
    {
        let ghost before: Sink = self@;
        let mut i: usize = 0;
        while i < n
            invariant
                i <= n,
                self@ == before.spaces(i as int),
            decreases n - i,
        {
            self.put_byte(32);
            i = i + 1;
        }
    }

    fn put_byte(&mut self, b: u8)
        requires
            b < 0x80,
        ensures
            final(self)@ == old(self)@.put(seq![b]),
    {
        let one: [u8; 1] = [b];
        proof {
            assert(one@ =~= seq![b]);
            numeral::lemma_ascii_valid(one@);
        }
        self.put(one.as_slice());
    }

    fn write_right(&mut self, s: &[u8], width: usize)
        requires
            valid_utf8(s@),
            width <= 64,
        ensures
            final(self)@ == old(self)@.right(s@, width as int),
    {
        let n: usize = width.saturating_sub(s.len());
        self.pad(n);
        self.put(s);
    }

    fn write_left(&mut self, s: &str, width: usize)
        requires
            width <= 64,
        ensures
            final(self)@ == old(self)@.left(text::bytes(s), width as int),
    {
        self.write_str(s);
        let n: usize = width.saturating_sub(text::count_chars(s));
        self.pad(n);
    }
}

fn tenths(n: u32) -> (r: Single)
    ensures
        r == from_tenths(n as nat),
{
    Single::from_u32(n).over(Single::from_u32(10))
}

/// A token count as it is shown.
pub struct TokenDisplay(pub u32);

impl TokenDisplay {
    pub fn write_to<const N: usize>(&self, out: &mut ReportBuf<N>)
        ensures
            final(out)@ == tokens_spec(old(out)@, self.0),
    {
        if self.0 >= 1024 {
            out.number(self.0 / 1024);
            out.write_str("k");
        } else {
            out.number(self.0);
        }
    }
}

/// A parameter count in millions as it is shown.
pub struct ParamDisplay(pub u32);

impl ParamDisplay {
    pub fn write_to<const N: usize>(&self, out: &mut ReportBuf<N>)
        ensures
            final(out)@ == params_spec(old(out)@, self.0),
    {
        if self.0 >= 1000 {
            out.write_fixed1(Single::from_u32(self.0).over(Single::from_u32(1000)));
            out.write_str("B");
        } else {
            out.number(self.0);
            out.write_str("M");
        }
    }
}

/// The report of a single model. Every figure that was inferred rather than
/// looked up says so: there is no room for a footnote on a small screen.
pub fn render_detail<const N: usize>(rec: &Recommendation<'_>, out: &mut ReportBuf<N>)
    ensures
        final(out)@ == detail_spec(old(out)@, rec@),
{
    proof {
        reveal(detail_spec);
    }
    let f: &Fit = &rec.fit;
    out.write_str(rec.model.name());
    out.write_str("\n");
    ParamDisplay(rec.model.params_m()).write_to(out);
    out.write_str(" params");
    out.write_str(
        if rec.model.is_moe() {
            " (MoE)"
        } else {
            ""
        },
    );
    out.write_str("\n\n");
    out.write_str(f.verdict.name());
    out.write_str(" on ");
    out.write_str(f.run_mode.name());
    out.write_str("\n");
    out.write_str("quant  ");
    out.write_str(f.quant.name());
    out.write_str("\n");
    out.write_str("mem    ");
    out.number(f.memory.resident_mb());
    out.write_str(" / ");
    out.number(f.pool_mb);
    out.write_str(" MiB  (");
    out.write_fixed0(tenths(f.utilization_pctx10 as u32));
    out.write_str("%)\n");
    out.write_str("  w ");
    out.number(f.memory.weights_mb);
    out.write_str(" + kv ");
    out.number(f.memory.kv_cache_mb);
    out.write_str(" + oh ");
    out.number(f.memory.overhead_mb);
    out.write_str("\n");
    if f.memory.kv_source == KvSource::Estimated {
        out.write_str("  (kv estimated, no arch metadata)\n");
    }
    out.write_str("ctx    ");
    TokenDisplay(f.usable_context).write_to(out);
    out.write_str(" usable / ");
    TokenDisplay(rec.model.context_length()).write_to(out);
    out.write_str(" native\n");
    out.write_str("speed  ");
    out.write_fixed1(tenths(rec.speed.decode_tps_x10));
    out.write_str(" tok/s  [");
    out.write_str(rec.speed.method.name());
    out.write_str("]\n");
    match rec.speed.ttft_ms {
        Some(ms) => {
            out.write_str("ttft   ");
            out.number(ms);
            out.write_str(" ms\n");
        },
        None => {
            out.write_str("ttft   not estimated\n");
        },
    }
    out.write_str("score  q");
    out.number(rec.scores.quality as u32);
    out.write_str(" s");
    out.number(rec.scores.speed as u32);
    out.write_str(" f");
    out.number(rec.scores.fit as u32);
    out.write_str(" c");
    out.number(rec.scores.context as u32);
    out.write_str(" = ");
    out.number((rec.scores.composite / 100) as u32);
}

/// The mark of where a throughput comes from. A small screen has less room to
/// explain itself, not less duty to tell a measured number from a guessed one.
pub fn mark(method: EstimateMethod) -> (r: u8)
    ensures
        r == mark_spec(method),
        r < 0x80,
{
    match method {
        EstimateMethod::Measured => 42,
        EstimateMethod::MeasuredAdjusted => 94,
        EstimateMethod::Calibrated => 43,
        EstimateMethod::Roofline => 32,
        EstimateMethod::BackendConstant => 126,
    }
}

fn write_row<const N: usize>(rec: &Recommendation<'_>, out: &mut ReportBuf<N>)
    ensures
        final(out)@ == row_spec(old(out)@, rec@),
{
    out.write_left(text::shorten(rec.model.name(), 25), 26);
    let quant: &str = rec.fit.quant.name();
    let verdict: &str = rec.fit.verdict.name();
    proof {
        encode_utf8_valid_utf8(quant@);
        encode_utf8_valid_utf8(verdict@);
    }
    out.write_right(quant.as_bytes(), 8);
    let tps: Numeral = Numeral::fixed1(tenths(rec.speed.decode_tps_x10));
    out.write_right(tps.as_bytes(), 7);
    out.put_byte(mark(rec.speed.method));
    out.write_right(verdict.as_bytes(), 8);
    out.write_str("\n");
}

fn help<const N: usize>(out: &mut ReportBuf<N>)
    ensures
        final(out)@ == old(out)@.say(help_text()),
{
    out.write_str(
        "ram <MiB>      system memory\nvram <MiB>     accelerator memory\ngpu <name>     look up bandwidth, e.g. rtx 4090\nbw <GB/s>      set bandwidth directly\ntflops <n>     fp16 throughput, enables ttft\ncpu            no accelerator\nuse <case>     coding|reasoning|chat|...|any\nctx <tokens>   cap context\nkv <f16|q8|q4> kv cache precision\nmin <level>    minimum fit to list\nlimit <n>      rows to show\nhw             show current machine\ngo             rank the catalog\nfit <model>    score one model",
    );
}

/// The number a command was given.
fn read_argument(rest: &str) -> (r: Option<u32>)
    ensures
        match r {
            Some(v) => argument(text::bytes(rest)) == Some(v as nat),
            None => argument(text::bytes(rest)) is None,
        },
{
    text::read_plain_u32(text::trim(rest).as_bytes())
}

// --- the session ------------------------------------------------------------

impl Default for Console {
    fn default() -> (r: Console)
        ensures
            r == Console::fresh(),
    {
        Console::new()
    }
}

impl Console {
    /// The session that a device starts with: a plausible laptop rather than an
    /// empty machine, so that whoever types `go` first sees a real answer.
    pub open spec fn fresh() -> Console {
        Console {
            hardware: Hardware {
                ram_mb: 16384,
                vram_mb: 0,
                unified: false,
                backend: Backend::CpuX86,
                gpu_bandwidth_gbps: 0,
                ram_bandwidth_gbps: 0,
                tflops_fp16_x10: 0,
                os_reserve_mb: 2048,
                hw_key: 0,
            },
            opts: Opts::defaults(),
            filter: Filter {
                use_case: None,
                min_verdict: None,
                min_tps: None,
                min_context: None,
                max_params_m: None,
            },
            limit: 10,
        }
    }

    pub fn new() -> (r: Console)
        ensures
            r == Console::fresh(),
    {
        Console {
            hardware: Hardware::cpu_only(16384, false),
            opts: Opts::default(),
            filter: Filter::default(),
            limit: 10,
        }
    }

    /// Handle one line of input. Commands are terse because they are typed over
    /// a serial link; what is not understood points at the help.
    pub fn handle<const N: usize>(
        &mut self,
        line: &str,
        catalog: &Catalog<'_>,
        out: &mut ReportBuf<N>,
    ) -> (r: Outcome)
        ensures
            (*final(self), final(out)@, r) == handled(
                *old(self),
                text::bytes(line),
                catalog@,
                N as nat,
            ),
    {
        out.clear();
        let line: &str = text::trim(line);
        if line.as_bytes().len() == 0 {
            return Outcome::Empty;
        }
        let (cmd, rest): (&str, &str) = text::split_once(line, 32);
        let rest: &str = text::trim(rest);
        let word: &[u8] = cmd.as_bytes();
        if text::is(word, "help") || text::is(word, "?") {
            help(out);
            Outcome::Done
        } else if text::is(word, "ram") {
            self.set_number(Field::Ram, rest, out)
        } else if text::is(word, "vram") {
            self.set_number(Field::Vram, rest, out)
        } else if text::is(word, "bw") {
            self.set_number(Field::Bandwidth, rest, out)
        } else if text::is(word, "tflops") {
            self.set_number(Field::Tflops, rest, out)
        } else if text::is(word, "limit") {
            self.set_limit(rest, out);
            Outcome::Done
        } else if text::is(word, "gpu") {
            self.set_gpu(rest, out);
            Outcome::Done
        } else if text::is(word, "cpu") {
            self.drop_gpu(out);
            Outcome::Done
        } else if text::is(word, "use") {
            self.set_use_case(rest, out);
            Outcome::Done
        } else if text::is(word, "ctx") {
            self.cap_context(rest, out);
            Outcome::Done
        } else if text::is(word, "kv") {
            self.set_cache(rest, out);
            Outcome::Done
        } else if text::is(word, "min") {
            self.set_minimum(rest, out);
            Outcome::Done
        } else if text::is(word, "hw") {
            self.show_hardware(out);
            Outcome::Done
        } else if text::is(word, "go") || text::is(word, "list") {
            self.rank(catalog, out);
            Outcome::Done
        } else if text::is(word, "fit") {
            self.one(rest, catalog, out);
            Outcome::Done
        } else {
            out.write_str("? ");
            out.write_str(cmd);
            out.write_str(" — type `help`");
            Outcome::Unknown
        }
    }

    /// Set one number of the machine.
    fn set_number<const N: usize>(
        &mut self,
        field: Field,
        rest: &str,
        out: &mut ReportBuf<N>,
    ) -> (r: Outcome)
        ensures
            (*final(self), final(out)@, r) == after_number(
                *old(self),
                field,
                text::bytes(rest),
                old(out)@,
            ),
    {
        proof {
            reveal(after_number);
        }
        match read_argument(rest) {
            Some(v) => {
                match field {
                    Field::Ram => {
                        self.hardware.ram_mb = v;
                    },
                    Field::Vram => {
                        self.hardware.vram_mb = v;
                        // Memory of an accelerator implies that there is one.
                        if v > 0 && self.hardware.backend.is_cpu() {
                            self.hardware.backend = Backend::Cuda;
                        }
                    },
                    Field::Bandwidth => {
                        self.hardware.gpu_bandwidth_gbps = if v < 65535 {
                            v as u16
                        } else {
                            65535
                        };
                    },
                    Field::Tflops => {
                        self.hardware.tflops_fp16_x10 = if v < 6554 {
                            (v * 10) as u16
                        } else {
                            65535
                        };
                    },
                }
                out.write_str(field.label());
                out.write_str(" = ");
                out.number(v);
                Outcome::Done
            },
            None => {
                out.write_str(field.label());
                out.write_str(" needs a number");
                Outcome::Unknown
            },
        }
    }

    /// Set the number of rows to show.
    fn set_limit<const N: usize>(&mut self, rest: &str, out: &mut ReportBuf<N>)
        ensures
            (*final(self), final(out)@) == after_limit(*old(self), text::bytes(rest), old(out)@),
    {
        proof {
            reveal(after_limit);
        }
        match read_argument(rest) {
            Some(v) => {
                let limit: u32 = if v < 1 {
                    1
                } else if v > 32 {
                    32
                } else {
                    v
                };
                self.limit = limit as usize;
                out.write_str("limit = ");
                out.number(limit);
            },
            None => {
                out.write_str("limit needs a number");
            },
        }
    }

    /// Score against system memory alone.
    fn drop_gpu<const N: usize>(&mut self, out: &mut ReportBuf<N>)
        ensures
            (*final(self), final(out)@) == after_cpu(*old(self), old(out)@),
    {
        proof {
            reveal(after_cpu);
        }
        self.hardware.vram_mb = 0;
        self.hardware.gpu_bandwidth_gbps = 0;
        self.hardware.tflops_fp16_x10 = 0;
        self.hardware.unified = false;
        self.hardware.backend = Backend::CpuX86;
        self.hardware.hw_key = 0;
        out.write_str("scoring against system RAM only");
    }

    /// Choose what to rank for.
    fn set_use_case<const N: usize>(&mut self, rest: &str, out: &mut ReportBuf<N>)
        ensures
            (*final(self), final(out)@) == after_use(*old(self), text::bytes(rest), old(out)@),
    {
        proof {
            reveal(after_use);
        }
        match UseCase::parse(rest) {
            Some(u) => {
                // A reweighting, not a filter: a strong generalist is still
                // an answer to what to use for coding.
                self.opts.use_case = Some(u);
                out.write_str("use case = ");
                out.write_str(u.name());
            },
            None => if text::is(rest.as_bytes(), "any") || rest.as_bytes().len() == 0 {
                self.opts.use_case = None;
                out.write_str("use case = any");
            } else {
                out.write_str("use <general|coding|reasoning|chat|multimodal|embedding|any>");
            },
        }
    }

    /// Cap the context, or leave it to the model.
    fn cap_context<const N: usize>(&mut self, rest: &str, out: &mut ReportBuf<N>)
        ensures
            (*final(self), final(out)@) == after_ctx(*old(self), text::bytes(rest), old(out)@),
    {
        proof {
            reveal(after_ctx);
        }
        self.opts.context = read_argument(rest);
        match self.opts.context {
            Some(c) => {
                out.write_str("context capped at ");
                out.number(c);
            },
            None => {
                out.write_str("context = model native");
            },
        }
    }

    /// Choose the precision of the cache.
    fn set_cache<const N: usize>(&mut self, rest: &str, out: &mut ReportBuf<N>)
        ensures
            (*final(self), final(out)@) == after_kv(*old(self), text::bytes(rest), old(out)@),
    {
        proof {
            reveal(after_kv);
        }
        self.opts.kv_quant = if text::is(rest.as_bytes(), "q8") {
            KvQuant::Q8
        } else if text::is(rest.as_bytes(), "q4") {
            KvQuant::Q4
        } else {
            KvQuant::F16
        };
        out.write_str("kv cache = ");
        out.write_str(self.opts.kv_quant.name());
    }

    /// Choose the least fit that is listed.
    fn set_minimum<const N: usize>(&mut self, rest: &str, out: &mut ReportBuf<N>)
        ensures
            (*final(self), final(out)@) == after_min(*old(self), text::bytes(rest), old(out)@),
    {
        proof {
            reveal(after_min);
        }
        self.filter.min_verdict = if text::is(rest.as_bytes(), "perfect") {
            Some(Verdict::Perfect)
        } else if text::is(rest.as_bytes(), "good") {
            Some(Verdict::Good)
        } else if text::is(rest.as_bytes(), "marginal") {
            Some(Verdict::Marginal)
        } else {
            None
        };
        out.write_str("minimum fit = ");
        match self.filter.min_verdict {
            Some(v) => out.write_str(v.name()),
            None => out.write_str("runnable"),
        }
    }

    /// Name the accelerator. The name is also what finds the measurements taken
    /// on the machine, which are worth more than its bandwidth.
    fn set_gpu<const N: usize>(&mut self, name: &str, out: &mut ReportBuf<N>)
        ensures
            (*final(self), final(out)@) == after_gpu(*old(self), text::bytes(name), old(out)@),
    {
        proof {
            reveal(after_gpu);
            reveal(gpu_machine);
            reveal(gpu_report);
        }
        if name.as_bytes().len() == 0 {
            out.write_str("gpu <name>, e.g. `gpu rtx 4090`");
            return;
        }
        self.hardware.hw_key = hw_key(name);
        match lookup_gpu(name) {
            Some((bw, tf)) => {
                self.hardware.gpu_bandwidth_gbps = bw;
                self.hardware.tflops_fp16_x10 = tf;
                if self.hardware.backend.is_cpu() {
                    self.hardware.backend = Backend::Cuda;
                }
                out.write_str(name);
                out.write_str(": ");
                out.number(bw as u32);
                out.write_str(" GB/s, ");
                out.write_fixed1(tenths(tf as u32));
                out.write_str(" TFLOPS fp16");
                if self.hardware.vram_mb == 0 {
                    out.write_str("\nset vram too, e.g. `vram 24576`");
                }
            },
            None => {
                self.hardware.gpu_bandwidth_gbps = 0;
                self.hardware.tflops_fp16_x10 = 0;
                out.write_str(name);
                out.write_str(" is not in the table — set `bw <GB/s>` for a real estimate");
            },
        }
    }

    fn show_hardware<const N: usize>(&self, out: &mut ReportBuf<N>)
        ensures
            final(out)@ == hardware_spec(old(out)@, self.hardware, self.opts.kv_quant),
    {
        proof {
            reveal(hardware_spec);
        }
        let hw: &Hardware = &self.hardware;
        out.write_str("ram    ");
        out.number(hw.ram_mb);
        out.write_str(" MiB (");
        out.number(hw.usable_ram_mb());
        out.write_str(" usable)\nvram   ");
        out.number(hw.vram_mb);
        out.write_str(" MiB");
        out.write_str(
            if hw.unified {
                " unified"
            } else {
                ""
            },
        );
        out.write_str("\nback   ");
        out.write_str(hw.backend.name());
        out.write_str("\n");
        let (bw, source): (Single, BandwidthSource) = hw.resolve_gpu_bandwidth();
        if Single::from_u32(0).lt(bw) {
            out.write_str("bw     ");
            out.write_fixed0(bw);
            out.write_str(" GB/s (");
            out.write_str(source.name());
            out.write_str(")\n");
        } else {
            out.write_str("bw     unknown — estimates use backend constant\n");
        }
        if hw.tflops_fp16_x10 > 0 {
            out.write_str("fp16   ");
            out.write_fixed1(tenths(hw.tflops_fp16_x10 as u32));
            out.write_str(" TFLOPS\n");
        } else {
            out.write_str("fp16   unknown — no prefill estimate\n");
        }
        out.write_str("kv     ");
        out.write_str(self.opts.kv_quant.name());
    }

    /// Rank the whole catalog. Only the best are ever held, so that a device
    /// with little memory can do it.
    fn rank<const N: usize>(&self, catalog: &Catalog<'_>, out: &mut ReportBuf<N>)
        ensures
            final(out)@ == ranking_spec(
                old(out)@,
                recommend::ranked(
                    catalog@,
                    self.hardware,
                    self.opts,
                    self.filter,
                    32,
                    catalog@.count,
                ),
                self.limit as nat,
            ),
    {
        proof {
            reveal(ranking_spec);
        }
        let top: TopN<'_, 32> = recommend::recommend(
            catalog,
            &self.hardware,
            &self.opts,
            &self.filter,
        );
        if top.is_empty() {
            out.write_str(
                "nothing in the catalog runs on this hardware.\ntry `kv q8`, `ctx 4096`, or more ram.",
            );
            return;
        }
        out.write_str("MODEL                        QUANT   TOK/S      FIT\n");
        let ghost head: Sink = out@;
        let n: usize = if self.limit < top.len() {
            self.limit
        } else {
            top.len()
        };
        let mut marked: bool = false;
        let mut i: usize = 0;
        while i < n
            invariant
                i <= n <= top@.len(),
                out@ == rows_spec(head, top@, i as nat),
                marked == any_marked(top@, i as nat),
            decreases n - i,
        {
            if let Some(rec) = top.get(i) {
                write_row(rec, out);
                if mark(rec.speed.method) != 32 {
                    marked = true;
                }
            }
            i = i + 1;
        }
        if marked {
            out.write_str("* measured here  ^ rescaled  + calibrated\n");
        }
        if out.overflowed() {
            out.write_str("\n(truncated — lower `limit`)");
        }
    }

    fn one<const N: usize>(&self, query: &str, catalog: &Catalog<'_>, out: &mut ReportBuf<N>)
        ensures
            final(out)@ == fit_report(*self, text::bytes(query), catalog@, old(out)@),
    {
        proof {
            reveal(fit_report);
        }
        if query.as_bytes().len() == 0 {
            out.write_str("fit <model name>");
            return;
        }
        match catalog.find(query) {
            Some(model) => {
                let rec: Recommendation<'_> = evaluate_model(
                    catalog,
                    &model,
                    &self.hardware,
                    &self.opts,
                );
                render_detail(&rec, out);
            },
            None => {
                out.write_str("no model matching \"");
                out.write_str(query);
                out.write_str("\"");
            },
        }
    }
}

impl Field {
    fn label(self) -> (r: &'static str)
        ensures
            r@ == self.label_spec()@,
    {
        match self {
            Field::Ram => "ram",
            Field::Vram => "vram",
            Field::Bandwidth => "bw",
            Field::Tflops => "tflops",
        }
    }
}

// --- laws -------------------------------------------------------------------

/// A line of nothing but white space changes nothing and shows nothing.
pub proof fn law_blank_lines_do_nothing(c: Console, line: Seq<u8>, cat: CatalogData, cap: nat)
    requires
        text::trimmed(line).len() == 0,
    ensures
        handled(c, line, cat, cap) == (c, Sink::empty(cap), Outcome::Empty),
{
}

/// The commands that only report leave the session as it is.
pub proof fn law_reports_change_nothing(c: Console, line: Seq<u8>, cat: CatalogData, cap: nat)
    requires
        ({
            let cmd = parted(line).0;
            cmd == text::bytes("help") || cmd == text::bytes("?") || cmd == text::bytes("hw") || cmd
                == text::bytes("go") || cmd == text::bytes("list") || cmd == text::bytes("fit")
        }),
    ensures
        handled(c, line, cat, cap).0 == c,
{
    let (cmd, rest) = parted(line);
    if cmd != text::bytes("help") && cmd != text::bytes("?") {
        lemma_words_differ(cmd);
    }
}

/// None of the words that only report is one that changes something.
proof fn lemma_words_differ(w: Seq<u8>)
    requires
        w == text::bytes("hw") || w == text::bytes("go") || w == text::bytes("list") || w
            == text::bytes("fit"),
    ensures
        w != text::bytes("ram"),
        w != text::bytes("vram"),
        w != text::bytes("bw"),
        w != text::bytes("tflops"),
        w != text::bytes("limit"),
        w != text::bytes("gpu"),
        w != text::bytes("cpu"),
        w != text::bytes("use"),
        w != text::bytes("ctx"),
        w != text::bytes("kv"),
        w != text::bytes("min"),
{
    reveal_strlit("hw");
    reveal_strlit("go");
    reveal_strlit("list");
    reveal_strlit("fit");
    reveal_strlit("ram");
    reveal_strlit("vram");
    reveal_strlit("bw");
    reveal_strlit("tflops");
    reveal_strlit("limit");
    reveal_strlit("gpu");
    reveal_strlit("cpu");
    reveal_strlit("use");
    reveal_strlit("ctx");
    reveal_strlit("kv");
    reveal_strlit("min");
    text::lemma_ascii("hw");
    text::lemma_ascii("go");
    text::lemma_ascii("list");
    text::lemma_ascii("fit");
    text::lemma_ascii("ram");
    text::lemma_ascii("vram");
    text::lemma_ascii("bw");
    text::lemma_ascii("tflops");
    text::lemma_ascii("limit");
    text::lemma_ascii("gpu");
    text::lemma_ascii("cpu");
    text::lemma_ascii("use");
    text::lemma_ascii("ctx");
    text::lemma_ascii("kv");
    text::lemma_ascii("min");
    assert(text::bytes("hw")[0] == 104);
    assert(text::bytes("go")[0] == 103);
    assert(text::bytes("go")[1] == 111);
    assert(text::bytes("list")[0] == 108);
    assert(text::bytes("list")[3] == 116);
    assert(text::bytes("fit")[0] == 102);
    assert(text::bytes("ram")[0] == 114);
    assert(text::bytes("vram")[0] == 118);
    assert(text::bytes("bw")[0] == 98);
    assert(text::bytes("tflops")[0] == 116);
    assert(text::bytes("limit").len() == 5);
    assert(text::bytes("gpu").len() == 3);
    assert(text::bytes("gpu")[0] == 103);
    assert(text::bytes("cpu")[0] == 99);
    assert(text::bytes("use")[0] == 117);
    assert(text::bytes("ctx")[0] == 99);
    assert(text::bytes("kv")[0] == 107);
    assert(text::bytes("min")[0] == 109);
}

/// What the commands that set a number leave alone.
proof fn lemma_number_leaves(c: Console, field: Field, rest: Seq<u8>, s: Sink)
    ensures
        after_number(c, field, rest, s).0.limit == c.limit,
        after_number(c, field, rest, s).0.filter == c.filter,
{
    reveal(after_number);
}

/// What `limit` sets, and what it leaves alone.
proof fn lemma_limit_sets(c: Console, rest: Seq<u8>, s: Sink)
    ensures
        after_limit(c, rest, s).0.limit == c.limit || 1 <= after_limit(c, rest, s).0.limit <= 32,
        after_limit(c, rest, s).0.filter == c.filter,
{
    reveal(after_limit);
}

/// What `gpu` and `cpu` leave alone.
proof fn lemma_machine_leaves(c: Console, rest: Seq<u8>, s: Sink)
    ensures
        after_gpu(c, rest, s).0.limit == c.limit,
        after_gpu(c, rest, s).0.filter == c.filter,
        after_cpu(c, s).0.limit == c.limit,
        after_cpu(c, s).0.filter == c.filter,
{
    reveal(after_gpu);
    reveal(after_cpu);
}

/// What `use`, `ctx` and `kv` leave alone.
proof fn lemma_options_leave(c: Console, rest: Seq<u8>, s: Sink)
    ensures
        after_use(c, rest, s).0.limit == c.limit,
        after_use(c, rest, s).0.filter == c.filter,
        after_ctx(c, rest, s).0.limit == c.limit,
        after_ctx(c, rest, s).0.filter == c.filter,
        after_kv(c, rest, s).0.limit == c.limit,
        after_kv(c, rest, s).0.filter == c.filter,
{
    reveal(after_use);
    reveal(after_ctx);
    reveal(after_kv);
}

/// What `min` leaves alone.
proof fn lemma_min_leaves(c: Console, rest: Seq<u8>, s: Sink)
    ensures
        after_min(c, rest, s).0.limit == c.limit,
        after_min(c, rest, s).0.filter.use_case == c.filter.use_case,
{
    reveal(after_min);
}

/// What a command leaves alone, whichever it is.
proof fn lemma_obeyed_leaves(c: Console, cmd: Seq<u8>, rest: Seq<u8>, cat: CatalogData, s: Sink)
    ensures
        ({
            let after = obeyed(c, cmd, rest, cat, s).0;
            &&& after.limit == c.limit || 1 <= after.limit <= 32
            &&& after.filter.use_case == c.filter.use_case
        }),
{
    lemma_number_leaves(c, Field::Ram, rest, s);
    lemma_number_leaves(c, Field::Vram, rest, s);
    lemma_number_leaves(c, Field::Bandwidth, rest, s);
    lemma_number_leaves(c, Field::Tflops, rest, s);
    lemma_limit_sets(c, rest, s);
    lemma_machine_leaves(c, rest, s);
    lemma_options_leave(c, rest, s);
    lemma_min_leaves(c, rest, s);
}

/// Whatever is typed, a session shows between one and 32 rows.
pub proof fn law_limit_stays_in_range(c: Console, line: Seq<u8>, cat: CatalogData, cap: nat)
    requires
        1 <= c.limit <= 32,
    ensures
        1 <= handled(c, line, cat, cap).0.limit <= 32,
{
    lemma_obeyed_leaves(c, parted(line).0, parted(line).1, cat, Sink::empty(cap));
}

/// A use case reweights and never filters.
pub proof fn law_use_cases_do_not_filter(c: Console, line: Seq<u8>, cat: CatalogData, cap: nat)
    ensures
        handled(c, line, cat, cap).0.filter.use_case == c.filter.use_case,
{
    lemma_obeyed_leaves(c, parted(line).0, parted(line).1, cat, Sink::empty(cap));
}

} // verus!
