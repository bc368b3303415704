//! The desktop command line: its arguments, and the machine they ask about.
//!
//! The answers here and on a microcontroller are the same answers; all that is
//! added is reading arguments and laying out text.

use vstd::prelude::*;
use vstd::utf8::*;

use crate::catalog;
use crate::catalog::{hw_key, UseCase};
use crate::fit::{Opts, Verdict};
use crate::float::Single;
use crate::hardware;
use crate::hardware::{lookup_gpu, Backend, Hardware};
use crate::page::{Draft, Page};
use crate::quant::{KvQuant, Quant};
use crate::text;

pub mod lines;
pub mod listing;
pub mod options;

verus! {

/// An argument, with the number it denotes where it denotes one.
pub struct Arg {
    pub text: String,
    pub number: Option<Single>,
}

impl Arg {
    pub open spec fn raw(self) -> Seq<u8> {
        encode_utf8(self.text@)
    }
}

/// What is asked for.
#[derive(Clone, Copy, PartialEq, Eq, Structural, Debug)]
pub enum Command {
    System,
    Recommend,
    Fit,
    Help,
    Unknown,
}

/// The options of a question.
pub struct Cli {
    pub catalog: String,
    pub use_case: Option<UseCase>,
    pub only: Option<UseCase>,
    pub limit: usize,
    pub context: Option<u32>,
    pub min_fit: Option<Verdict>,
    pub opts: Opts,
    pub json: bool,
    pub ram_override: Option<u32>,
    pub vram_override: Option<u32>,
    pub gpu_override: Option<String>,
    pub positional: Option<String>,
}

/// What options are.
pub ghost struct CliData {
    pub catalog: Seq<u8>,
    pub use_case: Option<UseCase>,
    pub only: Option<UseCase>,
    pub limit: usize,
    pub context: Option<u32>,
    pub min_fit: Option<Verdict>,
    pub opts: Opts,
    pub json: bool,
    pub ram_override: Option<u32>,
    pub vram_override: Option<u32>,
    pub gpu_override: Option<Seq<u8>>,
    pub positional: Option<Seq<u8>>,
}

/// The bytes of a string that may be missing.
pub open spec fn bytes_of(s: Option<String>) -> Option<Seq<u8>> {
    match s {
        Some(t) => Some(encode_utf8(t@)),
        None => None,
    }
}

impl View for Cli {
    type V = CliData;

    open spec fn view(&self) -> CliData {
        CliData {
            catalog: encode_utf8(self.catalog@),
            use_case: self.use_case,
            only: self.only,
            limit: self.limit,
            context: self.context,
            min_fit: self.min_fit,
            opts: self.opts,
            json: self.json,
            ram_override: self.ram_override,
            vram_override: self.vram_override,
            gpu_override: bytes_of(self.gpu_override),
            positional: bytes_of(self.positional),
        }
    }
}

/// Why arguments were not understood, and which of them.
#[derive(Clone, Copy, PartialEq, Eq, Structural, Debug)]
pub enum CliError {
    /// Nothing follows this flag.
    NeedsValue(usize),
    /// What follows this flag is no number.
    NotANumber(usize),
    UnknownUseCase(usize),
    UnknownFit(usize),
    UnknownKv(usize),
    UnknownQuant(usize),
    BadEfficiency,
    UnknownFlag(usize),
}

// --- what arguments mean ----------------------------------------------------

/// The command that comes first.
pub open spec fn command_spec(args: Seq<Arg>) -> Command {
    if args.len() == 0 {
        Command::Recommend
    } else {
        let first = args[0].raw();
        if first == text::bytes("system") {
            Command::System
        } else if first == text::bytes("recommend") || first.len() == 0 {
            Command::Recommend
        } else if first == text::bytes("fit") {
            Command::Fit
        } else if first == text::bytes("help") || first == text::bytes("--help") || first
            == text::bytes("-h") {
            Command::Help
        } else {
            Command::Unknown
        }
    }
}

/// The options before any argument.
pub open spec fn defaults(catalog: Seq<u8>) -> CliData {
    CliData {
        catalog,
        use_case: None,
        only: None,
        limit: 15,
        context: None,
        min_fit: None,
        opts: Opts::defaults(),
        json: false,
        ram_override: None,
        vram_override: None,
        gpu_override: None,
        positional: None,
    }
}

/// The number an argument is, as a count.
pub open spec fn count_spec(a: Arg) -> Option<nat> {
    text::unsigned(a.raw(), u32::MAX as nat)
}

pub open spec fn fit_level(s: Seq<u8>) -> Option<Verdict> {
    let low = text::lowered(s);
    if low == text::bytes("marginal") {
        Some(Verdict::Marginal)
    } else if low == text::bytes("good") {
        Some(Verdict::Good)
    } else if low == text::bytes("perfect") {
        Some(Verdict::Perfect)
    } else {
        None
    }
}

pub open spec fn precision(s: Seq<u8>) -> Option<KvQuant> {
    let low = text::lowered(s);
    if low == text::bytes("f16") || low == text::bytes("fp16") {
        Some(KvQuant::F16)
    } else if low == text::bytes("q8") || low == text::bytes("q8_0") {
        Some(KvQuant::Q8)
    } else if low == text::bytes("q4") || low == text::bytes("q4_0") {
        Some(KvQuant::Q4)
    } else {
        None
    }
}

/// Whether an argument is a flag that something follows.
pub open spec fn takes_value(flag: Seq<u8>) -> bool {
    ||| flag == text::bytes("--catalog")
    ||| flag == text::bytes("--use-case")
    ||| flag == text::bytes("--only")
    ||| flag == text::bytes("--limit")
    ||| flag == text::bytes("--context")
    ||| flag == text::bytes("--min-fit")
    ||| flag == text::bytes("--kv")
    ||| flag == text::bytes("--max-quant")
    ||| flag == text::bytes("--efficiency")
    ||| flag == text::bytes("--ram")
    ||| flag == text::bytes("--vram")
    ||| flag == text::bytes("--gpu")
}

/// The options after a flag at place `i` with what follows it.
pub open spec fn with_value(cli: CliData, flag: Seq<u8>, value: Arg, i: usize) -> Result<
    CliData,
    CliError,
> {
    let at = (i + 1) as usize;
    if flag == text::bytes("--catalog") {
        Ok(CliData { catalog: value.raw(), ..cli })
    } else if flag == text::bytes("--gpu") {
        Ok(CliData { gpu_override: Some(value.raw()), ..cli })
    } else if flag == text::bytes("--use-case") {
        match UseCase::parse_spec(value.raw()) {
            Some(u) => Ok(CliData { use_case: Some(u), ..cli }),
            None => Err(CliError::UnknownUseCase(at)),
        }
    } else if flag == text::bytes("--only") {
        match UseCase::parse_spec(value.raw()) {
            Some(u) => Ok(CliData { only: Some(u), ..cli }),
            None => Err(CliError::UnknownUseCase(at)),
        }
    } else if flag == text::bytes("--min-fit") {
        match fit_level(value.raw()) {
            Some(v) => Ok(CliData { min_fit: Some(v), ..cli }),
            None => Err(CliError::UnknownFit(at)),
        }
    } else if flag == text::bytes("--kv") {
        match precision(value.raw()) {
            Some(k) => Ok(CliData { opts: Opts { kv_quant: k, ..cli.opts }, ..cli }),
            None => Err(CliError::UnknownKv(at)),
        }
    } else if flag == text::bytes("--max-quant") {
        match Quant::parse_spec(value.raw()) {
            Some(q) => Ok(CliData { opts: Opts { max_quant: q, ..cli.opts }, ..cli }),
            None => Err(CliError::UnknownQuant(at)),
        }
    } else if flag == text::bytes("--efficiency") {
        match value.number {
            Some(e) => Ok(CliData { opts: Opts { efficiency: e, ..cli.opts }, ..cli }),
            None => Err(CliError::BadEfficiency),
        }
    } else {
        match count_spec(value) {
            None => Err(CliError::NotANumber(i)),
            Some(n) => if flag == text::bytes("--limit") {
                Ok(CliData { limit: n as usize, ..cli })
            } else if flag == text::bytes("--context") {
                Ok(CliData { context: Some(n as u32), ..cli })
            } else if flag == text::bytes("--ram") {
                Ok(CliData { ram_override: Some(n as u32), ..cli })
            } else {
                Ok(CliData { vram_override: Some(n as u32), ..cli })
            },
        }
    }
}

/// The options after the argument at place `i`, which takes nothing.
pub open spec fn without_value(cli: CliData, arg: Seq<u8>, i: usize) -> Result<CliData, CliError> {
    if arg == text::bytes("--json") {
        Ok(CliData { json: true, ..cli })
    } else if !(arg.len() > 0 && arg[0] == 45) && cli.positional is None {
        Ok(CliData { positional: Some(arg), ..cli })
    } else {
        Err(CliError::UnknownFlag(i))
    }
}

/// The options after the arguments from place `i` on.
pub open spec fn read_from(cli: CliData, args: Seq<Arg>, i: nat) -> Result<CliData, CliError>
    decreases args.len() - i,
{
    if i >= args.len() {
        Ok(cli)
    } else if takes_value(args[i as int].raw()) {
        if i + 1 >= args.len() {
            Err(CliError::NeedsValue(i as usize))
        } else {
            match with_value(cli, args[i as int].raw(), args[(i + 1) as int], i as usize) {
                Ok(next) => read_from(next, args, i + 2),
                Err(e) => Err(e),
            }
        }
    } else {
        match without_value(cli, args[i as int].raw(), i as usize) {
            Ok(next) => read_from(next, args, i + 1),
            Err(e) => Err(e),
        }
    }
}

/// The options of all arguments but the command.
pub open spec fn parsed(args: Seq<Arg>, catalog: Seq<u8>) -> Result<CliData, CliError> {
    match read_from(defaults(catalog), args, 1) {
        Ok(cli) => Ok(
            CliData {
                opts: Opts { context: cli.context, use_case: cli.use_case, ..cli.opts },
                ..cli
            },
        ),
        Err(e) => Err(e),
    }
}

/// The command that comes first.
pub fn command(args: &Vec<Arg>) -> (r: Command)
    ensures
        r == command_spec(args@),
{
    if args.len() == 0 {
        return Command::Recommend;
    }
    let first: &[u8] = args[0].text.as_str().as_bytes();
    if text::is(first, "system") {
        Command::System
    } else if text::is(first, "recommend") || first.len() == 0 {
        Command::Recommend
    } else if text::is(first, "fit") {
        Command::Fit
    } else if text::is(first, "help") || text::is(first, "--help") || text::is(first, "-h") {
        Command::Help
    } else {
        Command::Unknown
    }
}

fn wants_value(flag: &[u8]) -> (r: bool)
    ensures
        r == takes_value(flag@),
{
    text::is(flag, "--catalog") || text::is(flag, "--use-case") || text::is(flag, "--only")
        || text::is(flag, "--limit") || text::is(flag, "--context") || text::is(flag, "--min-fit")
        || text::is(flag, "--kv") || text::is(flag, "--max-quant") || text::is(flag, "--efficiency")
        || text::is(flag, "--ram") || text::is(flag, "--vram") || text::is(flag, "--gpu")
}

fn read_level(s: &[u8]) -> (r: Option<Verdict>)
    ensures
        r == fit_level(s@),
{
    if text::equal_in_lower(s, "marginal".as_bytes()) {
        Some(Verdict::Marginal)
    } else if text::equal_in_lower(s, "good".as_bytes()) {
        Some(Verdict::Good)
    } else if text::equal_in_lower(s, "perfect".as_bytes()) {
        Some(Verdict::Perfect)
    } else {
        None
    }
}

fn read_precision(s: &[u8]) -> (r: Option<KvQuant>)
    ensures
        r == precision(s@),
{
    if text::equal_in_lower(s, "f16".as_bytes()) || text::equal_in_lower(s, "fp16".as_bytes()) {
        Some(KvQuant::F16)
    } else if text::equal_in_lower(s, "q8".as_bytes()) || text::equal_in_lower(
        s,
        "q8_0".as_bytes(),
    ) {
        Some(KvQuant::Q8)
    } else if text::equal_in_lower(s, "q4".as_bytes()) || text::equal_in_lower(
        s,
        "q4_0".as_bytes(),
    ) {
        Some(KvQuant::Q4)
    } else {
        None
    }
}

/// Take in a flag with what follows it.
fn take_value(cli: &mut Cli, flag: &[u8], value: &Arg, i: usize) -> (r: Result<(), CliError>)
    requires
        i < usize::MAX,
        takes_value(flag@),
    ensures
        match r {
            Ok(_) => with_value(old(cli)@, flag@, *value, i) == Ok::<CliData, CliError>(
                final(cli)@,
            ),
            Err(e) => with_value(old(cli)@, flag@, *value, i) == Err::<CliData, CliError>(e),
        },
{
    let raw: &[u8] = value.text.as_str().as_bytes();
    if text::is(flag, "--catalog") {
        cli.catalog = value.text.as_str().to_owned();
    } else if text::is(flag, "--gpu") {
        cli.gpu_override = Some(value.text.as_str().to_owned());
    } else if text::is(flag, "--use-case") {
        match UseCase::parse_bytes(raw) {
            Some(u) => {
                cli.use_case = Some(u);
            },
            None => {
                return Err(CliError::UnknownUseCase(i + 1));
            },
        }
    } else if text::is(flag, "--only") {
        match UseCase::parse_bytes(raw) {
            Some(u) => {
                cli.only = Some(u);
            },
            None => {
                return Err(CliError::UnknownUseCase(i + 1));
            },
        }
    } else if text::is(flag, "--min-fit") {
        match read_level(raw) {
            Some(v) => {
                cli.min_fit = Some(v);
            },
            None => {
                return Err(CliError::UnknownFit(i + 1));
            },
        }
    } else if text::is(flag, "--kv") {
        match read_precision(raw) {
            Some(k) => {
                cli.opts.kv_quant = k;
            },
            None => {
                return Err(CliError::UnknownKv(i + 1));
            },
        }
    } else if text::is(flag, "--max-quant") {
        match Quant::parse_bytes(raw) {
            Some(q) => {
                cli.opts.max_quant = q;
            },
            None => {
                return Err(CliError::UnknownQuant(i + 1));
            },
        }
    } else if text::is(flag, "--efficiency") {
        match value.number {
            Some(e) => {
                cli.opts.efficiency = e;
            },
            None => {
                return Err(CliError::BadEfficiency);
            },
        }
    } else {
        match text::read_u32(raw) {
            None => {
                return Err(CliError::NotANumber(i));
            },
            Some(n) => if text::is(flag, "--limit") {
                cli.limit = n as usize;
            } else if text::is(flag, "--context") {
                cli.context = Some(n);
            } else if text::is(flag, "--ram") {
                cli.ram_override = Some(n);
            } else {
                cli.vram_override = Some(n);
            },
        }
    }
    Ok(())
}

/// Read the arguments behind the command; `catalog` is where a catalog is looked
/// for unless they say.
pub fn parse_cli(args: &Vec<Arg>, catalog: &str) -> (r: Result<Cli, CliError>)
    ensures
        match r {
            Ok(cli) => parsed(args@, text::bytes(catalog)) == Ok::<CliData, CliError>(cli@),
            Err(e) => parsed(args@, text::bytes(catalog)) == Err::<CliData, CliError>(e),
        },
{
    let mut cli: Cli = Cli {
        catalog: catalog.to_owned(),
        use_case: None,
        only: None,
        limit: 15,
        context: None,
        min_fit: None,
        opts: Opts::default(),
        json: false,
        ram_override: None,
        vram_override: None,
        gpu_override: None,
        positional: None,
    };
    let ghost whole: Result<CliData, CliError> = read_from(
        defaults(text::bytes(catalog)),
        args@,
        1,
    );
    let mut i: usize = 1;
    while i < args.len()
        invariant
            1 <= i,
            whole == read_from(defaults(text::bytes(catalog)), args@, 1),
            whole == read_from(cli@, args@, i as nat),
        decreases args@.len() - i,
    {
        let arg: &[u8] = args[i].text.as_str().as_bytes();
        if wants_value(arg) {
            if args.len() - i < 2 {
                return Err(CliError::NeedsValue(i));
            }
            match take_value(&mut cli, arg, &args[i + 1], i) {
                Ok(_) => {},
                Err(e) => {
                    return Err(e);
                },
            }
            i = i + 2;
        } else {
            if text::is(arg, "--json") {
                cli.json = true;
            } else if !(arg.len() > 0 && arg[0] == 45) && cli.positional.is_none() {
                cli.positional = Some(args[i].text.as_str().to_owned());
            } else {
                return Err(CliError::UnknownFlag(i));
            }
            i = i + 1;
        }
    }
    cli.opts.context = cli.context;
    cli.opts.use_case = cli.use_case;
    Ok(cli)
}

// --- the machine that is meant ----------------------------------------------

/// A machine with another accelerator in it. All that belongs to the one is
/// replaced by what belongs to the other; else the name of one card would stand
/// over the memory system of another, and the figures would be those of a
/// machine that does not exist.
#[verifier::opaque]
pub open spec fn refitted(hw: Hardware, name: Seq<u8>) -> Hardware {
    let known = hardware::gpu_answer(name);
    let low = text::lowered(name);
    let unified = (low.len() > 0 && low[0] == 109 && low.len() <= 8) || text::occurs(
        low,
        text::bytes("apple"),
    );
    Hardware {
        gpu_bandwidth_gbps: match known {
            Some(k) => k.0,
            None => 0,
        },
        tflops_fp16_x10: match known {
            Some(k) => k.1,
            None => 0,
        },
        unified,
        backend: if unified {
            Backend::Metal
        } else if text::occurs(low, text::bytes("radeon")) || text::occurs(low, text::bytes("rx "))
            || text::occurs(low, text::bytes("mi3")) {
            Backend::Rocm
        } else if text::occurs(low, text::bytes("arc")) {
            Backend::Sycl
        } else {
            Backend::Cuda
        },
        hw_key: catalog::hw_key_spec(name),
        ..hw
    }
}

/// The machine at hand with what the arguments say instead.
pub open spec fn overridden(hw: Hardware, cli: CliData) -> Hardware {
    let hw = match cli.ram_override {
        Some(ram) => Hardware { ram_mb: ram, ..hw },
        None => hw,
    };
    let hw = match cli.gpu_override {
        Some(name) => refitted(hw, name),
        None => hw,
    };
    match cli.vram_override {
        Some(vram) => Hardware {
            vram_mb: vram,
            backend: if hw.backend.cpu() {
                Backend::Cuda
            } else {
                hw.backend
            },
            ..hw
        },
        None => hw,
    }
}

fn refit(hw: Hardware, name: &str) -> (r: Hardware)
    ensures
        r == refitted(hw, text::bytes(name)),
{
    proof {
        reveal(refitted);
    }
    let raw: &[u8] = name.as_bytes();
    let (bandwidth, tflops): (u16, u16) = match lookup_gpu(name) {
        Some((b, t)) => (b, t),
        None => (0, 0),
    };
    let unified: bool = (raw.len() > 0 && text::to_lower(raw[0]) == 109 && raw.len() <= 8)
        || text::lower_contains(raw, "apple".as_bytes());
    let backend: Backend = if unified {
        Backend::Metal
    } else if text::lower_contains(raw, "radeon".as_bytes()) || text::lower_contains(
        raw,
        "rx ".as_bytes(),
    ) || text::lower_contains(raw, "mi3".as_bytes()) {
        Backend::Rocm
    } else if text::lower_contains(raw, "arc".as_bytes()) {
        Backend::Sycl
    } else {
        Backend::Cuda
    };
    Hardware {
        ram_mb: hw.ram_mb,
        vram_mb: hw.vram_mb,
        unified,
        backend,
        gpu_bandwidth_gbps: bandwidth,
        ram_bandwidth_gbps: hw.ram_bandwidth_gbps,
        tflops_fp16_x10: tflops,
        os_reserve_mb: hw.os_reserve_mb,
        hw_key: hw_key(name),
    }
}

/// Put `--ram`, `--gpu` and `--vram` over what was detected.
pub fn apply_overrides(hw: Hardware, cli: &Cli) -> (r: Hardware)
    ensures
        r == overridden(hw, cli@),
{
    let mut hw: Hardware = hw;
    if let Some(ram) = cli.ram_override {
        hw.ram_mb = ram;
    }
    if let Some(name) = &cli.gpu_override {
        hw = refit(hw, name.as_str());
    }
    if let Some(vram) = cli.vram_override {
        hw.vram_mb = vram;
        if hw.backend.is_cpu() {
            hw.backend = Backend::Cuda;
        }
    }
    hw
}

/// A named accelerator leaves nothing of the one at hand: but for its memory,
/// which is set apart, the machine that is scored is the same whatever was in it.
pub proof fn law_a_named_gpu_replaces_the_one_at_hand(a: Hardware, b: Hardware, cli: CliData)
    requires
        cli.gpu_override is Some,
        cli.vram_override is Some || a.vram_mb == b.vram_mb,
        cli.ram_override is Some || a.ram_mb == b.ram_mb,
        a.ram_bandwidth_gbps == b.ram_bandwidth_gbps,
        a.os_reserve_mb == b.os_reserve_mb,
    ensures
        overridden(a, cli) == overridden(b, cli),
{
    reveal(refitted);
}

/// Without overrides the machine at hand is scored.
pub proof fn law_no_override_changes_nothing(hw: Hardware, cli: CliData)
    requires
        cli.ram_override is None,
        cli.gpu_override is None,
        cli.vram_override is None,
    ensures
        overridden(hw, cli) == hw,
{
}

// --- complaints -------------------------------------------------------------

impl CliError {
    /// Whether it is about one of these arguments.
    pub open spec fn about(self, args: Seq<Arg>) -> bool {
        match self {
            CliError::NeedsValue(i) => i < args.len(),
            CliError::NotANumber(i) => i < args.len(),
            CliError::UnknownUseCase(i) => i < args.len(),
            CliError::UnknownFit(i) => i < args.len(),
            CliError::UnknownKv(i) => i < args.len(),
            CliError::UnknownQuant(i) => i < args.len(),
            CliError::BadEfficiency => true,
            CliError::UnknownFlag(i) => i < args.len(),
        }
    }

    pub open spec fn message_spec(self, args: Seq<Arg>) -> Draft {
        let d = Draft::empty();
        match self {
            CliError::NeedsValue(i) => d.put(args[i as int].raw()).say(" needs a value"),
            CliError::NotANumber(i) => d.put(args[i as int].raw()).say(" must be a number"),
            CliError::UnknownUseCase(i) => d.say("unknown use case: ").put(args[i as int].raw()),
            CliError::UnknownFit(i) => d.say("unknown fit level: ").put(
                text::lowered(args[i as int].raw()),
            ),
            CliError::UnknownKv(i) => d.say("unknown KV precision: ").put(
                text::lowered(args[i as int].raw()),
            ),
            CliError::UnknownQuant(i) => d.say("unknown quantization: ").put(args[i as int].raw()),
            CliError::BadEfficiency => d.say("--efficiency must be a number like 0.55"),
            CliError::UnknownFlag(i) => d.say("unknown flag: ").put(args[i as int].raw()),
        }
    }

    /// What to tell the user.
    pub fn message(&self, args: &Vec<Arg>) -> (r: Page)
        requires
            self.about(args@),
        ensures
            r@ == self.message_spec(args@),
    {
        let mut page: Page = Page::new();
        match *self {
            CliError::NeedsValue(i) => {
                page.say(args[i].text.as_str());
                page.say(" needs a value");
            },
            CliError::NotANumber(i) => {
                page.say(args[i].text.as_str());
                page.say(" must be a number");
            },
            CliError::UnknownUseCase(i) => {
                page.say("unknown use case: ");
                page.say(args[i].text.as_str());
            },
            CliError::UnknownFit(i) => {
                page.say("unknown fit level: ");
                page.put(text::lower_copy(args[i].text.as_str().as_bytes()).as_slice());
            },
            CliError::UnknownKv(i) => {
                page.say("unknown KV precision: ");
                page.put(text::lower_copy(args[i].text.as_str().as_bytes()).as_slice());
            },
            CliError::UnknownQuant(i) => {
                page.say("unknown quantization: ");
                page.say(args[i].text.as_str());
            },
            CliError::BadEfficiency => {
                page.say("--efficiency must be a number like 0.55");
            },
            CliError::UnknownFlag(i) => {
                page.say("unknown flag: ");
                page.say(args[i].text.as_str());
            },
        }
        page
    }
}

/// A complaint is always about an argument that was given.
pub proof fn law_complaints_are_about_arguments(args: Seq<Arg>, catalog: Seq<u8>)
    requires
        args.len() <= usize::MAX,
    ensures
        parsed(args, catalog) matches Err(e) ==> e.about(args),
{
    lemma_complaint(defaults(catalog), args, 1);
}

proof fn lemma_complaint(cli: CliData, args: Seq<Arg>, i: nat)
    requires
        args.len() <= usize::MAX,
    ensures
        read_from(cli, args, i) matches Err(e) ==> e.about(args),
    decreases args.len() - i,
{
    if i < args.len() {
        let arg = args[i as int];
        if takes_value(arg.raw()) {
            if i + 1 < args.len() {
                if let Ok(next) = with_value(cli, arg.raw(), args[(i + 1) as int], i as usize) {
                    lemma_complaint(next, args, i + 2);
                }
            }
        } else if let Ok(next) = without_value(cli, arg.raw(), i as usize) {
            lemma_complaint(next, args, i + 1);
        }
    }
}

} // verus!
