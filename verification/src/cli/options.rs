//! What every argument of the command line does.

use vstd::prelude::*;
use vstd::utf8::*;

use crate::catalog;
use crate::catalog::{CatalogData, UseCase};
use crate::cli;
use crate::cli::listing;
use crate::cli::listing::FitError;
use crate::cli::{Arg, CliData, CliError, Command};
use crate::fit::{Opts, Verdict};
use crate::float::Single;
use crate::hardware;
use crate::hardware::{Backend, Hardware};
use crate::page::Draft;
use crate::quant::{KvQuant, Quant};
use crate::recommend;
use crate::recommend::criteria;
use crate::text;

verus! {

/// What is in force before any argument: fifteen rows, no cap, no minimum, text,
/// and the options that the estimator was calibrated against: a full cache, 55
/// percent of the bandwidth, experts parked where they can be, and nothing finer
/// than eight bits.
pub proof fn law_the_defaults(path: Seq<u8>)
    ensures
        ({
            let d = cli::defaults(path);
            &&& d.catalog == path
            &&& d.limit == 15
            &&& d.use_case is None && d.only is None && d.context is None && d.min_fit is None
            &&& d.ram_override is None && d.vram_override is None && d.gpu_override is None
            &&& d.positional is None
            &&& !d.json
            &&& d.opts.context is None
            &&& d.opts.kv_quant == KvQuant::F16
            &&& d.opts.efficiency == Single::nearest(55, 100)
            &&& d.opts.allow_moe_offload
            &&& d.opts.max_quant == Quant::Q8_0
            &&& d.opts.use_case is None
        }),
{
}

/// The word of a command, and a ranking where there is none.
pub proof fn law_words_for_commands(args: Seq<Arg>)
    ensures
        args.len() == 0 ==> cli::command_spec(args) == Command::Recommend,
        args.len() > 0 ==> ({
            let is = |w: &str| encode_utf8(args[0].text@) == encode_utf8(w@);
            let c = cli::command_spec(args);
            &&& is("system") ==> c == Command::System
            &&& is("recommend") ==> c == Command::Recommend
            &&& is("fit") ==> c == Command::Fit
            &&& is("help") || is("--help") || is("-h") ==> c == Command::Help
            &&& c == Command::System ==> is("system")
            &&& c == Command::Fit ==> is("fit")
            &&& c == Command::Help ==> is("help") || is("--help") || is("-h")
        }),
{
    reveal_strlit("system");
    reveal_strlit("recommend");
    reveal_strlit("fit");
    reveal_strlit("help");
    reveal_strlit("--help");
    reveal_strlit("-h");
    text::lemma_ascii("system");
    text::lemma_ascii("recommend");
    text::lemma_ascii("fit");
    text::lemma_ascii("help");
    text::lemma_ascii("--help");
    text::lemma_ascii("-h");
    assert(text::bytes("system")[0] == 115);
    assert(text::bytes("recommend")[0] == 114);
    assert(text::bytes("fit")[0] == 102);
    assert(text::bytes("help")[0] == 104);
    assert(text::bytes("--help")[0] == 45);
    assert(text::bytes("-h")[0] == 45);
}

/// What tells the flags apart.
proof fn lemma_flags()
    ensures
        text::bytes("--catalog").len() == 9 && text::bytes("--catalog")[2] == 99
            && text::bytes("--catalog")[3] == 97,
        text::bytes("--context").len() == 9 && text::bytes("--context")[2] == 99
            && text::bytes("--context")[3] == 111,
        text::bytes("--use-case")[2] == 117,
        text::bytes("--only")[2] == 111,
        text::bytes("--limit")[2] == 108,
        text::bytes("--min-fit")[2] == 109 && text::bytes("--min-fit")[3] == 105,
        text::bytes("--max-quant")[2] == 109 && text::bytes("--max-quant")[3] == 97,
        text::bytes("--kv")[2] == 107,
        text::bytes("--efficiency")[2] == 101,
        text::bytes("--ram")[2] == 114,
        text::bytes("--vram")[2] == 118,
        text::bytes("--gpu")[2] == 103,
        text::bytes("--json")[2] == 106,
{
    reveal_strlit("--catalog");
    reveal_strlit("--context");
    reveal_strlit("--use-case");
    reveal_strlit("--only");
    reveal_strlit("--limit");
    reveal_strlit("--min-fit");
    reveal_strlit("--max-quant");
    reveal_strlit("--kv");
    reveal_strlit("--efficiency");
    reveal_strlit("--ram");
    reveal_strlit("--vram");
    reveal_strlit("--gpu");
    reveal_strlit("--json");
    text::lemma_ascii("--catalog");
    text::lemma_ascii("--context");
    text::lemma_ascii("--use-case");
    text::lemma_ascii("--only");
    text::lemma_ascii("--limit");
    text::lemma_ascii("--min-fit");
    text::lemma_ascii("--max-quant");
    text::lemma_ascii("--kv");
    text::lemma_ascii("--efficiency");
    text::lemma_ascii("--ram");
    text::lemma_ascii("--vram");
    text::lemma_ascii("--gpu");
    text::lemma_ascii("--json");
}

/// A flag that takes a number takes the argument behind it, and sets what it
/// names and nothing else; what is no number is refused.
pub proof fn law_flags_with_a_number(d: CliData, args: Seq<Arg>, i: nat)
    requires
        i + 1 < args.len() <= usize::MAX,
        i + 2 <= args.len(),
    ensures
        ({
            let is = |w: &str| encode_utf8(args[i as int].text@) == encode_utf8(w@);
            let r = cli::read_from(d, args, i);
            let numbered = is("--ram") || is("--vram") || is("--limit") || is("--context");
            match text::unsigned(encode_utf8(args[(i + 1) as int].text@), u32::MAX as nat) {
                Some(n) => {
                    &&& is("--ram") ==> r == cli::read_from(
                        CliData { ram_override: Some(n as u32), ..d },
                        args,
                        i + 2,
                    )
                    &&& is("--vram") ==> r == cli::read_from(
                        CliData { vram_override: Some(n as u32), ..d },
                        args,
                        i + 2,
                    )
                    &&& is("--limit") ==> r == cli::read_from(
                        CliData { limit: n as usize, ..d },
                        args,
                        i + 2,
                    )
                    &&& is("--context") ==> r == cli::read_from(
                        CliData { context: Some(n as u32), ..d },
                        args,
                        i + 2,
                    )
                },
                None => numbered ==> r == Err::<CliData, CliError>(
                    CliError::NotANumber(i as usize),
                ),
            }
        }),
{
    lemma_flags();
}

/// A flag that takes a word takes the argument behind it, and sets what it names
/// and nothing else; a word that is not known is refused.
pub proof fn law_flags_with_a_word(d: CliData, args: Seq<Arg>, i: nat)
    requires
        i + 1 < args.len() <= usize::MAX,
        i + 2 <= args.len(),
    ensures
        ({
            let is = |w: &str| encode_utf8(args[i as int].text@) == encode_utf8(w@);
            let word = encode_utf8(args[(i + 1) as int].text@);
            let r = cli::read_from(d, args, i);
            &&& is("--catalog") ==> r == cli::read_from(
                CliData { catalog: word, ..d },
                args,
                i + 2,
            )
            &&& is("--gpu") ==> r == cli::read_from(
                CliData { gpu_override: Some(word), ..d },
                args,
                i + 2,
            )
            &&& is("--use-case") ==> match UseCase::parse_spec(word) {
                Some(u) => r == cli::read_from(CliData { use_case: Some(u), ..d }, args, i + 2),
                None => r == Err::<CliData, CliError>(CliError::UnknownUseCase((i + 1) as usize)),
            }
            &&& is("--only") ==> match UseCase::parse_spec(word) {
                Some(u) => r == cli::read_from(CliData { only: Some(u), ..d }, args, i + 2),
                None => r == Err::<CliData, CliError>(CliError::UnknownUseCase((i + 1) as usize)),
            }
        }),
{
    lemma_flags();
}

/// The flags of fit, cache, format and share, and the one that takes nothing.
pub proof fn law_flags_of_the_estimate(d: CliData, args: Seq<Arg>, i: nat)
    requires
        i + 1 < args.len() <= usize::MAX,
        i + 2 <= args.len(),
    ensures
        ({
            let is = |w: &str| encode_utf8(args[i as int].text@) == encode_utf8(w@);
            let value = args[(i + 1) as int];
            let word = encode_utf8(value.text@);
            let r = cli::read_from(d, args, i);
            &&& is("--min-fit") ==> match cli::fit_level(word) {
                Some(v) => r == cli::read_from(CliData { min_fit: Some(v), ..d }, args, i + 2),
                None => r == Err::<CliData, CliError>(CliError::UnknownFit((i + 1) as usize)),
            }
            &&& is("--kv") ==> match cli::precision(word) {
                Some(k) => r == cli::read_from(
                    CliData { opts: Opts { kv_quant: k, ..d.opts }, ..d },
                    args,
                    i + 2,
                ),
                None => r == Err::<CliData, CliError>(CliError::UnknownKv((i + 1) as usize)),
            }
            &&& is("--max-quant") ==> match Quant::parse_spec(word) {
                Some(q) => r == cli::read_from(
                    CliData { opts: Opts { max_quant: q, ..d.opts }, ..d },
                    args,
                    i + 2,
                ),
                None => r == Err::<CliData, CliError>(CliError::UnknownQuant((i + 1) as usize)),
            }
            &&& is("--efficiency") ==> match value.number {
                Some(e) => r == cli::read_from(
                    CliData { opts: Opts { efficiency: e, ..d.opts }, ..d },
                    args,
                    i + 2,
                ),
                None => r == Err::<CliData, CliError>(CliError::BadEfficiency),
            }
            &&& is("--json") ==> r == cli::read_from(CliData { json: true, ..d }, args, i + 1)
        }),
{
    lemma_flags();
}

/// The words for how good a fit must be, and for the width of the cache, in any
/// case.
pub proof fn law_words_for_fits_and_caches(s: Seq<u8>)
    ensures
        ({
            let is = |w: &str| text::lowered(s) == encode_utf8(w@);
            &&& cli::fit_level(s) == Some(Verdict::Marginal) <==> is("marginal")
            &&& cli::fit_level(s) == Some(Verdict::Good) <==> is("good")
            &&& cli::fit_level(s) == Some(Verdict::Perfect) <==> is("perfect")
            &&& cli::precision(s) == Some(KvQuant::F16) <==> is("f16") || is("fp16")
            &&& cli::precision(s) == Some(KvQuant::Q8) <==> is("q8") || is("q8_0")
            &&& cli::precision(s) == Some(KvQuant::Q4) <==> is("q4") || is("q4_0")
        }),
{
    reveal_strlit("marginal");
    reveal_strlit("good");
    reveal_strlit("perfect");
    reveal_strlit("f16");
    reveal_strlit("fp16");
    reveal_strlit("q8");
    reveal_strlit("q8_0");
    reveal_strlit("q4");
    reveal_strlit("q4_0");
    text::lemma_ascii("marginal");
    text::lemma_ascii("good");
    text::lemma_ascii("perfect");
    text::lemma_ascii("f16");
    text::lemma_ascii("fp16");
    text::lemma_ascii("q8");
    text::lemma_ascii("q8_0");
    text::lemma_ascii("q4");
    text::lemma_ascii("q4_0");
    assert(text::bytes("marginal")[0] == 109);
    assert(text::bytes("good")[0] == 103);
    assert(text::bytes("perfect")[0] == 112);
    assert(text::bytes("f16")[0] == 102);
    assert(text::bytes("fp16")[0] == 102);
    assert(text::bytes("q8")[0] == 113 && text::bytes("q8")[1] == 56);
    assert(text::bytes("q8_0")[0] == 113 && text::bytes("q8_0")[1] == 56);
    assert(text::bytes("q4")[0] == 113 && text::bytes("q4")[1] == 52);
    assert(text::bytes("q4_0")[0] == 113 && text::bytes("q4_0")[1] == 52);
}

/// What was asked for is asked of the engine: the cap on the context and the use
/// case are the options that models are scored under.
pub proof fn law_questions_reach_the_engine(args: Seq<Arg>, path: Seq<u8>)
    ensures
        cli::parsed(args, path) matches Ok(d) ==> d.opts.context == d.context && d.opts.use_case
            == d.use_case,
        args.len() <= 1 ==> cli::parsed(args, path) == Ok::<CliData, CliError>(
            cli::defaults(path),
        ),
{
}

/// What `--ram`, `--vram` and `--gpu` make of a machine. A memory that is given is
/// the machine's, and accelerator memory makes an accelerator of a processor. A
/// named accelerator brings its own figures, or none where it is not known: it is
/// unified where its name is Apple's, and of the backend of its maker.
pub proof fn law_what_overrides_make_of_a_machine(hw: Hardware, d: CliData)
    ensures
        ({
            let m = cli::overridden(hw, d);
            &&& m.ram_mb == match d.ram_override {
                Some(n) => n,
                None => hw.ram_mb,
            }
            &&& m.vram_mb == match d.vram_override {
                Some(n) => n,
                None => hw.vram_mb,
            }
            &&& m.ram_bandwidth_gbps == hw.ram_bandwidth_gbps
            &&& m.os_reserve_mb == hw.os_reserve_mb
            &&& d.gpu_override is None ==> {
                &&& m.gpu_bandwidth_gbps == hw.gpu_bandwidth_gbps
                &&& m.tflops_fp16_x10 == hw.tflops_fp16_x10
                &&& m.hw_key == hw.hw_key
                &&& m.unified == hw.unified
                &&& d.vram_override is None ==> m.backend == hw.backend
                &&& d.vram_override is Some && (hw.backend == Backend::CpuArm || hw.backend
                    == Backend::CpuX86) ==> m.backend == Backend::Cuda
                &&& d.vram_override is Some && hw.backend != Backend::CpuArm && hw.backend
                    != Backend::CpuX86 ==> m.backend == hw.backend
            }
            &&& d.gpu_override matches Some(name) ==> {
                let low = text::lowered(name);
                let has = |w: &str| text::occurs(low, encode_utf8(w@));
                let apple = has("apple") || (0 < low.len() <= 8 && low[0] == 109);
                &&& hardware::gpu_answer(name) matches Some(k) ==> m.gpu_bandwidth_gbps == k.0
                    && m.tflops_fp16_x10 == k.1
                &&& hardware::gpu_answer(name) is None ==> m.gpu_bandwidth_gbps == 0
                    && m.tflops_fp16_x10 == 0
                &&& m.hw_key == catalog::hw_key_spec(name)
                &&& m.unified == apple
                &&& m.backend == if apple {
                    Backend::Metal
                } else if has("radeon") || has("rx ") || has("mi3") {
                    Backend::Rocm
                } else if has("arc") {
                    Backend::Sycl
                } else {
                    Backend::Cuda
                }
            }
        }),
{
    reveal(cli::refitted);
}

/// A ranking that is asked for holds at most 64 entries of the machine that is
/// meant; every one is as good a fit as `--min-fit` says, and of the use case of
/// `--only`.
pub proof fn law_rankings_obey_the_flags(c: CatalogData, hw: Hardware, d: CliData, k: int)
    requires
        0 <= k < listing::top_spec(c, hw, d).len(),
    ensures
        ({
            let rec = listing::top_spec(c, hw, d)[k];
            let verdict = rec.fit.verdict;
            &&& listing::top_spec(c, hw, d).len() <= 64
            &&& d.only matches Some(u) ==> rec.model.use_case() == u
            &&& d.min_fit == Some(Verdict::Perfect) ==> verdict == Verdict::Perfect
            &&& d.min_fit == Some(Verdict::Good) ==> verdict == Verdict::Perfect || verdict
                == Verdict::Good
            &&& d.min_fit == Some(Verdict::Marginal) || d.min_fit is None ==> verdict
                != Verdict::TooTight
            &&& rec.fit == crate::fit::evaluate_spec(rec.model, cli::overridden(hw, d), d.opts)
        }),
{
    let (m, f) = (cli::overridden(hw, d), listing::filter_spec(d));
    criteria::law_listed_models_meet_every_criterion(c, m, d.opts, f, 64, c.count, k);
    criteria::law_entries_are_of_one_piece(c, m, d.opts, f, 64, c.count, k);
    recommend::law_rankings_are_sorted_and_distinct(c, m, d.opts, f, 64, c.count);
}

/// As many rows are shown as were asked for, and no more than there are.
pub proof fn law_as_many_rows_as_asked_for(top: Seq<recommend::RecData>, limit: usize)
    ensures
        listing::shown(top, limit) <= limit,
        listing::shown(top, limit) <= top.len(),
        listing::shown(top, limit) == limit || listing::shown(top, limit) == top.len(),
{
}

/// One argument that is no flag is what the command is about; a second one, or a
/// flag that is not known, is refused at its place, and so is a flag at the end that
/// something should follow.
pub proof fn law_what_the_command_is_about(d: CliData, args: Seq<Arg>, i: nat)
    requires
        i < args.len() <= usize::MAX,
    ensures
        ({
            let arg = encode_utf8(args[i as int].text@);
            let is = |w: &str| arg == encode_utf8(w@);
            let followed = is("--catalog") || is("--use-case") || is("--only") || is("--limit")
                || is("--context") || is("--min-fit") || is("--kv") || is("--max-quant") || is(
                "--efficiency",
            ) || is("--ram") || is("--vram") || is("--gpu");
            let json = is("--json");
            let r = cli::read_from(d, args, i);
            &&& arg.len() == 0 || arg[0] != 45 ==> if d.positional is None {
                r == cli::read_from(CliData { positional: Some(arg), ..d }, args, i + 1)
            } else {
                r == Err::<CliData, CliError>(CliError::UnknownFlag(i as usize))
            }
            &&& arg.len() > 0 && arg[0] == 45 && !followed && !json ==> r == Err::<
                CliData,
                CliError,
            >(CliError::UnknownFlag(i as usize))
            &&& followed && i + 1 == args.len() ==> r == Err::<CliData, CliError>(
                CliError::NeedsValue(i as usize),
            )
        }),
{
    lemma_flags();
    lemma_dashes();
}

/// Every flag begins with a dash.
proof fn lemma_dashes()
    ensures
        text::bytes("--catalog")[0] == 45 && text::bytes("--context")[0] == 45,
        text::bytes("--use-case")[0] == 45 && text::bytes("--only")[0] == 45,
        text::bytes("--limit")[0] == 45 && text::bytes("--min-fit")[0] == 45,
        text::bytes("--max-quant")[0] == 45 && text::bytes("--kv")[0] == 45,
        text::bytes("--efficiency")[0] == 45 && text::bytes("--ram")[0] == 45,
        text::bytes("--vram")[0] == 45 && text::bytes("--gpu")[0] == 45,
        text::bytes("--json")[0] == 45,
        text::bytes("--catalog").len() > 0 && text::bytes("--context").len() > 0,
        text::bytes("--use-case").len() > 0 && text::bytes("--only").len() > 0,
        text::bytes("--limit").len() > 0 && text::bytes("--min-fit").len() > 0,
        text::bytes("--max-quant").len() > 0 && text::bytes("--kv").len() > 0,
        text::bytes("--efficiency").len() > 0 && text::bytes("--ram").len() > 0,
        text::bytes("--vram").len() > 0 && text::bytes("--gpu").len() > 0,
        text::bytes("--json").len() > 0,
{
    reveal_strlit("--catalog");
    reveal_strlit("--context");
    reveal_strlit("--use-case");
    reveal_strlit("--only");
    reveal_strlit("--limit");
    reveal_strlit("--min-fit");
    reveal_strlit("--max-quant");
    reveal_strlit("--kv");
    reveal_strlit("--efficiency");
    reveal_strlit("--ram");
    reveal_strlit("--vram");
    reveal_strlit("--gpu");
    reveal_strlit("--json");
    text::lemma_ascii("--catalog");
    text::lemma_ascii("--context");
    text::lemma_ascii("--use-case");
    text::lemma_ascii("--only");
    text::lemma_ascii("--limit");
    text::lemma_ascii("--min-fit");
    text::lemma_ascii("--max-quant");
    text::lemma_ascii("--kv");
    text::lemma_ascii("--efficiency");
    text::lemma_ascii("--ram");
    text::lemma_ascii("--vram");
    text::lemma_ascii("--gpu");
    text::lemma_ascii("--json");
}

/// The answer to `fit` is of the model that is found under the name, on the machine
/// that is meant and under the options that were given; without a name, or where no
/// model has it, there is none.
pub proof fn law_the_answer_to_fit(c: CatalogData, d: CliData, hw: Hardware)
    ensures
        ({
            let answer = listing::fit_spec(c, d, hw);
            match d.positional {
                None => answer == Err::<Draft, FitError>(FitError::NoName),
                Some(name) => match c.find(name) {
                    None => answer == Err::<Draft, FitError>(FitError::NoModel),
                    Some(i) => {
                        let rec = recommend::evaluated(
                            c,
                            c.model(i),
                            cli::overridden(hw, d),
                            d.opts,
                        );
                        &&& rec.model == c.model(i)
                        &&& rec.fit == crate::fit::evaluate_spec(
                            c.model(i),
                            cli::overridden(hw, d),
                            d.opts,
                        )
                        &&& !d.json ==> answer == Ok::<Draft, FitError>(listing::detail_spec(rec))
                        &&& d.json ==> answer == Ok::<Draft, FitError>(
                            listing::json_item(
                                Draft::empty().put(encode_utf8("{\"models\":[\n"@)),
                                rec,
                            ).put(encode_utf8("\n]}\n"@)),
                        )
                    },
                },
            }
        }),
{
    reveal_with_fuel(listing::json_items, 2);
}

/// The answer to `recommend` is the ranking on the machine that is meant, under the
/// name of the accelerator that was given or else found; for machines to read where
/// that was asked for, and as many entries as were asked for.
pub proof fn law_the_answer_to_recommend(
    c: CatalogData,
    d: CliData,
    hw: Hardware,
    gpu: Option<Seq<u8>>,
)
    ensures
        ({
            let answer = listing::recommend_spec(c, d, hw, gpu);
            let top = listing::top_spec(c, hw, d);
            let n = if d.limit < top.len() {
                d.limit as nat
            } else {
                top.len()
            };
            let name = if d.gpu_override is Some {
                d.gpu_override
            } else {
                gpu
            };
            &&& d.json ==> answer == listing::json_spec(top, n)
            &&& !d.json ==> answer == listing::ranking_spec(
                cli::overridden(hw, d),
                name,
                d,
                top,
                c.count,
            )
        }),
{
}

} // verus!
