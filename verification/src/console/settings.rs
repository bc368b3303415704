//! What every command does to a session.

use vstd::prelude::*;

use crate::catalog;
use crate::catalog::{CatalogData, UseCase};
use crate::console;
use crate::console::{Console, Outcome};
use crate::fit::{Opts, Verdict};
use crate::float::Single;
use crate::hardware;
use crate::hardware::{Backend, Hardware};
use crate::quant::{KvQuant, Quant};
use crate::recommend::Filter;
use crate::report::Sink;
use crate::text;

verus! {

/// What tells the commands apart.
pub(crate) proof fn lemma_words()
    ensures
        text::bytes("help")[0] == 104 && text::bytes("help").len() == 4,
        text::bytes("?")[0] == 63,
        text::bytes("ram")[0] == 114,
        text::bytes("vram")[0] == 118,
        text::bytes("bw")[0] == 98,
        text::bytes("tflops")[0] == 116,
        text::bytes("limit")[0] == 108 && text::bytes("limit").len() == 5,
        text::bytes("gpu")[0] == 103 && text::bytes("gpu").len() == 3,
        text::bytes("cpu")[0] == 99 && text::bytes("cpu")[1] == 112,
        text::bytes("use")[0] == 117,
        text::bytes("ctx")[0] == 99 && text::bytes("ctx")[1] == 116,
        text::bytes("kv")[0] == 107,
        text::bytes("min")[0] == 109,
        text::bytes("hw")[0] == 104 && text::bytes("hw").len() == 2,
        text::bytes("go")[0] == 103 && text::bytes("go").len() == 2,
        text::bytes("list")[0] == 108 && text::bytes("list").len() == 4,
        text::bytes("fit")[0] == 102,
{
    reveal_strlit("help");
    reveal_strlit("?");
    reveal_strlit("ram");
    reveal_strlit("vram");
    reveal_strlit("bw");
    reveal_strlit("tflops");
    reveal_strlit("limit");
    reveal_strlit("gpu");
    reveal_strlit("cpu");
    reveal_strlit("use");
    reveal_strlit("ctx");
    reveal_strlit("kv");
    reveal_strlit("min");
    reveal_strlit("hw");
    reveal_strlit("go");
    reveal_strlit("list");
    reveal_strlit("fit");
    text::lemma_ascii("help");
    text::lemma_ascii("?");
    text::lemma_ascii("ram");
    text::lemma_ascii("vram");
    text::lemma_ascii("bw");
    text::lemma_ascii("tflops");
    text::lemma_ascii("limit");
    text::lemma_ascii("gpu");
    text::lemma_ascii("cpu");
    text::lemma_ascii("use");
    text::lemma_ascii("ctx");
    text::lemma_ascii("kv");
    text::lemma_ascii("min");
    text::lemma_ascii("hw");
    text::lemma_ascii("go");
    text::lemma_ascii("list");
    text::lemma_ascii("fit");
}

/// Which command is carried out.
proof fn lemma_obeyed(c: Console, cmd: Seq<u8>, rest: Seq<u8>, cat: CatalogData, s: Sink)
    ensures
        ({
            let after = console::obeyed(c, cmd, rest, cat, s);
            &&& cmd == text::bytes("use") ==> after == console::done(
                console::after_use(c, rest, s),
            )
            &&& cmd == text::bytes("ctx") ==> after == console::done(
                console::after_ctx(c, rest, s),
            )
            &&& cmd == text::bytes("kv") ==> after == console::done(console::after_kv(c, rest, s))
            &&& cmd == text::bytes("min") ==> after == console::done(
                console::after_min(c, rest, s),
            )
        }),
{
    lemma_words();
}

/// What a session starts with: a laptop of sixteen gigabytes without an
/// accelerator, nothing filtered, and ten rows.
pub proof fn law_a_session_starts_with_a_laptop()
    ensures
        ({
            let c = Console::fresh();
            &&& c.limit == 10
            &&& c.hardware.ram_mb == 16384 && c.hardware.os_reserve_mb == 2048
            &&& c.hardware.vram_mb == 0 && !c.hardware.unified
            &&& c.hardware.backend == Backend::CpuX86
            &&& c.hardware.gpu_bandwidth_gbps == 0 && c.hardware.ram_bandwidth_gbps == 0
            &&& c.hardware.tflops_fp16_x10 == 0 && c.hardware.hw_key == 0
            &&& c.filter.use_case is None && c.filter.min_verdict is None
            &&& c.filter.min_tps is None && c.filter.min_context is None
            &&& c.filter.max_params_m is None
            &&& c.opts.context is None && c.opts.use_case is None
            &&& c.opts.kv_quant == KvQuant::F16 && c.opts.max_quant == Quant::Q8_0
            &&& c.opts.allow_moe_offload
            &&& c.opts.efficiency == Single::nearest(55, 100)
        }),
{
}

/// A command and its argument are parted by the first space; white space around
/// either does not count.
pub proof fn law_a_command_ends_at_a_space(word: Seq<u8>, rest: Seq<u8>, line: Seq<u8>)
    requires
        forall|i: int| 0 <= i < word.len() ==> #[trigger] word[i] != 32,
        text::trimmed(line) == word.push(32) + rest || (text::trimmed(line) == word && rest.len()
            == 0),
    ensures
        console::parted(line) == (word, text::trimmed(rest)),
{
    let t = text::trimmed(line);
    lemma_place(t, word, 0);
    if t == word {
        assert(text::split_spec(t, 32).1 =~= rest);
    } else {
        assert(t.take(word.len() as int) =~= word);
        assert(t.skip((word.len() + 1) as int) =~= rest);
    }
}

proof fn lemma_place(t: Seq<u8>, word: Seq<u8>, from: int)
    requires
        0 <= from <= word.len() <= t.len(),
        forall|i: int| 0 <= i < word.len() ==> #[trigger] t[i] == word[i] && word[i] != 32,
        word.len() < t.len() ==> t[word.len() as int] == 32,
    ensures
        text::place_of(t, 32, from) == word.len(),
    decreases word.len() - from,
{
    if from < word.len() {
        assert(t[from] == word[from]);
        lemma_place(t, word, from + 1);
    }
}

/// The commands that set a number of the machine set that one, and keep the rest
/// of the session: memory as it is given, with an accelerator where memory of one
/// is given to a processor; bandwidth as far as it can be held; and throughput in
/// tenths. Anything but a number changes nothing, and the answer says so.
pub proof fn law_numbers_of_the_machine(c: Console, line: Seq<u8>, cat: CatalogData, cap: nat)
    requires
        text::trimmed(line).len() > 0,
    ensures
        ({
            let (cmd, rest) = console::parted(line);
            let (after, _, outcome) = console::handled(c, line, cat, cap);
            let hw = after.hardware;
            let is = |w: &str| cmd == text::bytes(w);
            let cpu = c.hardware.backend == Backend::CpuX86 || c.hardware.backend
                == Backend::CpuArm;
            is("ram") || is("vram") || is("bw") || is("tflops") ==> {
                &&& after.opts == c.opts && after.filter == c.filter && after.limit == c.limit
                &&& match text::plain_number(text::trimmed(rest), 0xffff_ffff) {
                    Some(v) => {
                        let bounded = |n: nat|
                            if n < 65535 {
                                n
                            } else {
                                65535
                            };
                        &&& outcome == Outcome::Done
                        &&& is("ram") ==> hw == Hardware { ram_mb: v as u32, ..c.hardware }
                        &&& is("vram") && v > 0 && cpu ==> hw == Hardware {
                            vram_mb: v as u32,
                            backend: Backend::Cuda,
                            ..c.hardware
                        }
                        &&& is("vram") && !(v > 0 && cpu) ==> hw == Hardware {
                            vram_mb: v as u32,
                            ..c.hardware
                        }
                        &&& is("bw") ==> hw == Hardware {
                            gpu_bandwidth_gbps: bounded(v) as u16,
                            ..c.hardware
                        }
                        &&& is("tflops") ==> hw == Hardware {
                            tflops_fp16_x10: bounded(10 * v) as u16,
                            ..c.hardware
                        }
                    },
                    None => after == c && outcome == Outcome::Unknown,
                }
            }
        }),
{
    lemma_words();
    reveal(console::after_number);
}

/// `limit` is held between one and 32 rows, and is kept where none is given.
pub proof fn law_how_many_rows_are_shown(c: Console, line: Seq<u8>, cat: CatalogData, cap: nat)
    requires
        text::trimmed(line).len() > 0,
        console::parted(line).0 == text::bytes("limit"),
    ensures
        ({
            let after = console::handled(c, line, cat, cap).0;
            &&& after == Console { limit: after.limit, ..c }
            &&& match text::plain_number(text::trimmed(console::parted(line).1), 0xffff_ffff) {
                Some(v) => {
                    &&& v == 0 ==> after.limit == 1
                    &&& 1 <= v <= 32 ==> after.limit == v
                    &&& v > 32 ==> after.limit == 32
                },
                None => after.limit == c.limit,
            }
        }),
{
    lemma_words();
    reveal(console::after_limit);
}

/// `gpu` makes the machine that of the name: with its figures, or none where they
/// are not known, and still the same memory. `cpu` takes the accelerator away and
/// leaves the memory of the system.
pub proof fn law_the_accelerator_of_a_session(c: Console, line: Seq<u8>, cat: CatalogData, cap: nat)
    requires
        text::trimmed(line).len() > 0,
    ensures
        ({
            let (cmd, name) = console::parted(line);
            let after = console::handled(c, line, cat, cap).0;
            let (old_hw, hw) = (c.hardware, after.hardware);
            let cpu = old_hw.backend == Backend::CpuX86 || old_hw.backend == Backend::CpuArm;
            &&& cmd == text::bytes("gpu") || cmd == text::bytes("cpu") ==> {
                &&& after.opts == c.opts && after.filter == c.filter && after.limit == c.limit
                &&& hw.ram_mb == old_hw.ram_mb && hw.os_reserve_mb == old_hw.os_reserve_mb
                &&& hw.ram_bandwidth_gbps == old_hw.ram_bandwidth_gbps
            }
            &&& cmd == text::bytes("gpu") && name.len() == 0 ==> after == c
            &&& cmd == text::bytes("gpu") && name.len() > 0 ==> {
                &&& hw.vram_mb == old_hw.vram_mb && hw.unified == old_hw.unified
                &&& hw.hw_key == catalog::hw_key_spec(name)
                &&& match hardware::gpu_answer(name) {
                    Some(k) => hw.gpu_bandwidth_gbps == k.0 && hw.tflops_fp16_x10 == k.1
                        && hw.backend == if cpu {
                        Backend::Cuda
                    } else {
                        old_hw.backend
                    },
                    None => hw.gpu_bandwidth_gbps == 0 && hw.tflops_fp16_x10 == 0 && hw.backend
                        == old_hw.backend,
                }
            }
            &&& cmd == text::bytes("cpu") ==> {
                &&& hw.vram_mb == 0 && !hw.unified && hw.backend == Backend::CpuX86
                &&& hw.gpu_bandwidth_gbps == 0 && hw.tflops_fp16_x10 == 0 && hw.hw_key == 0
            }
        }),
{
    lemma_words();
    reveal(console::after_gpu);
    reveal(console::after_cpu);
    reveal(console::gpu_machine);
}

/// `use`, `ctx` and `kv` set the options they name, and nothing else: `use` with
/// `any` or nothing weighs for no use in particular and keeps what it had where
/// the word is not known, `ctx` without a number lifts the cap, and `kv` with
/// another word than `q8` or `q4` gives back the full width.
pub proof fn law_the_options_of_a_session(c: Console, line: Seq<u8>, cat: CatalogData, cap: nat)
    requires
        text::trimmed(line).len() > 0,
    ensures
        ({
            let (cmd, rest) = console::parted(line);
            let after = console::handled(c, line, cat, cap).0;
            &&& cmd == text::bytes("use") ==> after == Console {
                opts: Opts { use_case: after.opts.use_case, ..c.opts },
                ..c
            } && match UseCase::parse_spec(rest) {
                Some(u) => after.opts.use_case == Some(u),
                None => if rest == text::bytes("any") || rest.len() == 0 {
                    after.opts.use_case is None
                } else {
                    after.opts.use_case == c.opts.use_case
                },
            }
            &&& cmd == text::bytes("ctx") ==> after == Console {
                opts: Opts { context: after.opts.context, ..c.opts },
                ..c
            } && match text::plain_number(text::trimmed(rest), 0xffff_ffff) {
                Some(v) => after.opts.context == Some(v as u32),
                None => after.opts.context is None,
            }
            &&& cmd == text::bytes("kv") ==> {
                &&& after == Console {
                    opts: Opts { kv_quant: after.opts.kv_quant, ..c.opts },
                    ..c
                }
                &&& after.opts.kv_quant == KvQuant::Q8 <==> rest == text::bytes("q8")
                &&& after.opts.kv_quant == KvQuant::Q4 <==> rest == text::bytes("q4")
            }
        }),
{
    let (cmd, rest) = console::parted(line);
    lemma_obeyed(c, cmd, rest, cat, Sink::empty(cap));
    lemma_use(c, rest, Sink::empty(cap));
    lemma_ctx(c, rest, Sink::empty(cap));
    lemma_kv(c, rest, Sink::empty(cap));
}

proof fn lemma_use(c: Console, rest: Seq<u8>, s: Sink)
    ensures
        ({
            let after = console::after_use(c, rest, s).0;
            &&& after == Console {
                opts: Opts { use_case: after.opts.use_case, ..c.opts },
                ..c
            }
            &&& match UseCase::parse_spec(rest) {
                Some(u) => after.opts.use_case == Some(u),
                None => if rest == text::bytes("any") || rest.len() == 0 {
                    after.opts.use_case is None
                } else {
                    after.opts.use_case == c.opts.use_case
                },
            }
        }),
{
    reveal(console::after_use);
}

proof fn lemma_ctx(c: Console, rest: Seq<u8>, s: Sink)
    ensures
        ({
            let after = console::after_ctx(c, rest, s).0;
            &&& after == Console {
                opts: Opts { context: after.opts.context, ..c.opts },
                ..c
            }
            &&& match text::plain_number(text::trimmed(rest), 0xffff_ffff) {
                Some(v) => after.opts.context == Some(v as u32),
                None => after.opts.context is None,
            }
        }),
{
    reveal(console::after_ctx);
}

proof fn lemma_kv(c: Console, rest: Seq<u8>, s: Sink)
    ensures
        ({
            let after = console::after_kv(c, rest, s).0;
            &&& after == Console {
                opts: Opts { kv_quant: after.opts.kv_quant, ..c.opts },
                ..c
            }
            &&& after.opts.kv_quant == KvQuant::Q8 <==> rest == text::bytes("q8")
            &&& after.opts.kv_quant == KvQuant::Q4 <==> rest == text::bytes("q4")
        }),
{
    reveal(console::after_kv);
    reveal_strlit("q8");
    reveal_strlit("q4");
    text::lemma_ascii("q8");
    text::lemma_ascii("q4");
    assert(text::bytes("q8")[1] == 56);
    assert(text::bytes("q4")[1] == 52);
}

proof fn lemma_min(c: Console, rest: Seq<u8>, s: Sink)
    ensures
        ({
            let after = console::after_min(c, rest, s).0;
            let min = after.filter.min_verdict;
            &&& after == Console { filter: Filter { min_verdict: min, ..c.filter }, ..c }
            &&& min == Some(Verdict::Perfect) <==> rest == text::bytes("perfect")
            &&& min == Some(Verdict::Good) <==> rest == text::bytes("good")
            &&& min == Some(Verdict::Marginal) <==> rest == text::bytes("marginal")
            &&& min != Some(Verdict::TooTight)
        }),
{
    reveal(console::after_min);
    reveal_strlit("perfect");
    reveal_strlit("good");
    reveal_strlit("marginal");
    text::lemma_ascii("perfect");
    text::lemma_ascii("good");
    text::lemma_ascii("marginal");
    assert(text::bytes("perfect")[0] == 112);
    assert(text::bytes("good")[0] == 103);
    assert(text::bytes("marginal")[0] == 109);
}

/// `min` sets the fit that a listed model must have at least, and lifts it where
/// the word is none of the three.
pub proof fn law_the_least_fit_that_is_listed(c: Console, line: Seq<u8>, cat: CatalogData, cap: nat)
    requires
        text::trimmed(line).len() > 0,
        console::parted(line).0 == text::bytes("min"),
    ensures
        ({
            let rest = console::parted(line).1;
            let after = console::handled(c, line, cat, cap).0;
            let min = after.filter.min_verdict;
            &&& after == Console { filter: Filter { min_verdict: min, ..c.filter }, ..c }
            &&& min == Some(Verdict::Perfect) <==> rest == text::bytes("perfect")
            &&& min == Some(Verdict::Good) <==> rest == text::bytes("good")
            &&& min == Some(Verdict::Marginal) <==> rest == text::bytes("marginal")
            &&& min != Some(Verdict::TooTight)
        }),
{
    let (cmd, rest) = console::parted(line);
    lemma_obeyed(c, cmd, rest, cat, Sink::empty(cap));
    lemma_min(c, rest, Sink::empty(cap));
}

/// What is no command changes nothing and is answered as not understood; every
/// other line but one that lacks its number is carried out.
pub proof fn law_what_is_no_command(c: Console, line: Seq<u8>, cat: CatalogData, cap: nat)
    requires
        text::trimmed(line).len() > 0,
    ensures
        ({
            let cmd = console::parted(line).0;
            let (after, _, outcome) = console::handled(c, line, cat, cap);
            let is = |w: &str| cmd == text::bytes(w);
            let number = is("ram") || is("vram") || is("bw") || is("tflops");
            let word = is("help") || is("?") || is("limit") || is("gpu") || is("cpu") || is("use")
                || is("ctx") || is("kv") || is("min") || is("hw") || is("go") || is("list") || is(
                "fit",
            );
            &&& !number && !word ==> after == c && outcome == Outcome::Unknown
            &&& word ==> outcome == Outcome::Done
        }),
{
    lemma_words();
}

} // verus!
