//! What a console shows, and where it stands.

use vstd::prelude::*;
use vstd::utf8::*;

use crate::catalog::flags;
use crate::catalog::CatalogData;
use crate::console;
use crate::console::settings;
use crate::console::Console;
use crate::fit::KvSource;
use crate::float::Single;
use crate::hardware;
use crate::hardware::Hardware;
use crate::numeral;
use crate::quant::KvQuant;
use crate::recommend;
use crate::recommend::RecData;
use crate::report::Sink;
use crate::speed::EstimateMethod;
use crate::text;

verus! {

/// Whether a text stands in a report that was not cut short.
#[verifier::opaque]
pub open spec fn stands(s: Sink, piece: Seq<u8>) -> bool {
    s.overflowed || text::occurs(s.text, piece)
}

/// Whether a text stands in a report, right behind a word.
pub open spec fn tells(s: Sink, word: &str, what: Seq<u8>) -> bool {
    stands(s, encode_utf8(word@) + what)
}

/// What is put into a report stays in it.
proof fn lemma_put()
    ensures
        forall|s: Sink, t: Seq<u8>, piece: Seq<u8>|
            stands(s, piece) ==> #[trigger] stands(s.put(t), piece),
        forall|s: Sink, n: int, piece: Seq<u8>|
            stands(s, piece) ==> #[trigger] stands(s.spaces(n), piece),
        forall|s: Sink, k: Seq<u8>, v: Seq<u8>| #[trigger] stands(s.put(k).put(v), k + v),
{
    assert forall|s: Sink, t: Seq<u8>, piece: Seq<u8>| stands(s, piece) implies #[trigger] stands(
        s.put(t),
        piece,
    ) by {
        lemma_stays(s, t, piece);
    }
    assert forall|s: Sink, n: int, piece: Seq<u8>| stands(s, piece) implies #[trigger] stands(
        s.spaces(n),
        piece,
    ) by {
        lemma_stays_spaced(s, n, piece);
    }
    assert forall|s: Sink, k: Seq<u8>, v: Seq<u8>| #[trigger] stands(s.put(k).put(v), k + v) by {
        reveal(Sink::put);
        reveal(stands);
        let after = s.put(k).put(v);
        let i = s.text.len() as int;
        if !after.overflowed {
            assert(after.text.subrange(i, i + (k + v).len()) =~= k + v);
            assert(text::occurs_at(after.text, k + v, i));
        }
    }
}

proof fn lemma_stays(s: Sink, t: Seq<u8>, piece: Seq<u8>)
    requires
        stands(s, piece),
    ensures
        stands(s.put(t), piece),
{
    reveal(Sink::put);
    reveal(stands);
    let after = s.put(t);
    if !after.overflowed {
        let i = choose|i: int| text::occurs_at(s.text, piece, i);
        assert(after.text.subrange(i, i + piece.len()) =~= s.text.subrange(i, i + piece.len()));
        assert(text::occurs_at(after.text, piece, i));
    }
}

proof fn lemma_stays_spaced(s: Sink, n: int, piece: Seq<u8>)
    requires
        stands(s, piece),
    ensures
        stands(s.spaces(n), piece),
    decreases n,
{
    if n > 0 {
        lemma_stays_spaced(s, n - 1, piece);
        lemma_stays(s.spaces(n - 1), seq![32u8], piece);
    }
}

/// What is shown of the machine of a session: its memory and what is left of it,
/// its backend, its figures or that they are not known, and the width of the cache.
pub proof fn law_what_is_shown_of_a_machine(s: Sink, hw: Hardware, kv: KvQuant)
    ensures
        ({
            let page = console::hardware_spec(s, hw, kv);
            let number = |word: &str, n: nat| tells(page, word, numeral::decimal(n));
            let said = |word: &str, w: &str| tells(page, word, encode_utf8(w@));
            let (bw, source) = hw.gpu_bandwidth_spec();
            &&& number("ram    ", hw.ram_mb as nat)
            &&& hw.ram_mb >= hw.os_reserve_mb ==> number(
                " MiB (",
                (hw.ram_mb - hw.os_reserve_mb) as nat,
            )
            &&& hw.ram_mb < hw.os_reserve_mb ==> number(" MiB (", 0)
            &&& number(" usable)\nvram   ", hw.vram_mb as nat)
            &&& hw.unified ==> said(" MiB", " unified")
            &&& said("\nback   ", hw.backend.name_spec())
            &&& Single::nearest(0, 1).below(bw) ==> tells(page, "bw     ", numeral::fixed0(bw))
                && said(" GB/s (", source.name_spec())
            &&& !Single::nearest(0, 1).below(bw) ==> said(
                "\n",
                "bw     unknown — estimates use backend constant\n",
            )
            &&& hw.tflops_fp16_x10 > 0 ==> tells(
                page,
                "fp16   ",
                numeral::fixed1(console::from_tenths(hw.tflops_fp16_x10 as nat)),
            )
            &&& hw.tflops_fp16_x10 == 0 ==> said(
                "fp16   unknown — no prefill estimate\n",
                "kv     ",
            )
            &&& said("kv     ", kv.name_spec())
        }),
{
    lemma_put();
    reveal(console::hardware_spec);
}

/// Where a throughput comes from is told by a mark: `*` for what was measured, `^`
/// for what was rescaled, `+` for what was calibrated, `~` for what only the backend
/// tells, and none for what was worked out.
pub proof fn law_marks_tell_the_source(method: EstimateMethod)
    ensures
        console::mark_spec(method) == match method {
            EstimateMethod::Measured => 42u8,
            EstimateMethod::MeasuredAdjusted => 94u8,
            EstimateMethod::Calibrated => 43u8,
            EstimateMethod::BackendConstant => 126u8,
            EstimateMethod::Roofline => 32u8,
        },
{
}

/// Tokens are shown in units of 1024 from 1024 on, parameters in billions from a
/// thousand million on.
pub proof fn law_how_a_console_counts(s: Sink, t: u32, m: u32)
    ensures
        t < 1024 ==> console::tokens_spec(s, t) == s.put(numeral::decimal(t as nat)),
        t >= 1024 ==> console::tokens_spec(s, t) == s.put(
            numeral::decimal((t / 1024) as nat),
        ).put(encode_utf8("k"@)),
        m < 1000 ==> console::params_spec(s, m) == s.put(numeral::decimal(m as nat)).put(
            encode_utf8("M"@),
        ),
        m >= 1000 ==> console::params_spec(s, m) == s.put(
            numeral::fixed1(Single::nearest(m as nat, 1).div_spec(Single::nearest(1000, 1))),
        ).put(encode_utf8("B"@)),
{
}

/// The report of one model on a console: the verdict and where it runs, the memory
/// and what it goes to, the context, the speed and where it comes from, what a
/// prompt takes or that it is not estimated, and every score.
pub proof fn law_what_a_console_shows_of_a_model(s: Sink, rec: RecData)
    ensures
        ({
            let page = console::detail_spec(s, rec);
            let (f, m) = (rec.fit, rec.fit.memory);
            let number = |word: &str, n: nat| tells(page, word, numeral::decimal(n));
            let said = |word: &str, w: &str| tells(page, word, encode_utf8(w@));
            &&& rec.model.has_flag(flags::MOE) ==> said(" params", " (MoE)")
            &&& said(" on ", f.run_mode.name_spec())
            &&& said("quant  ", f.quant.name_spec())
            &&& number("mem    ", m.resident_spec() as nat)
            &&& number(" / ", f.pool_mb as nat)
            &&& tells(
                page,
                " MiB  (",
                numeral::fixed0(console::from_tenths(f.utilization_pctx10 as nat)),
            )
            &&& number("  w ", m.weights_mb as nat)
            &&& number(" + kv ", m.kv_cache_mb as nat)
            &&& number(" + oh ", m.overhead_mb as nat)
            &&& m.kv_source == KvSource::Estimated ==> said(
                "\n",
                "  (kv estimated, no arch metadata)\n",
            )
            &&& tells(
                page,
                "speed  ",
                numeral::fixed1(console::from_tenths(rec.speed.decode_tps_x10 as nat)),
            )
            &&& said(" tok/s  [", rec.speed.method.name_spec())
            &&& match rec.speed.ttft_ms {
                Some(ms) => number("ttft   ", ms as nat),
                None => said("ttft   not estimated\n", "score  q"),
            }
            &&& number("score  q", rec.scores.quality as nat)
            &&& number(" s", rec.scores.speed as nat)
            &&& number(" f", rec.scores.fit as nat)
            &&& number(" c", rec.scores.context as nat)
            &&& number(" = ", (rec.scores.composite / 100) as nat)
        }),
{
    lemma_put();
    reveal(console::detail_spec);
}

/// What `gpu` answers: the figures of the accelerator, and that its memory is to be
/// set where there is none yet; or that it is not known.
pub proof fn law_what_is_said_of_an_accelerator(s: Sink, hw: Hardware, name: Seq<u8>)
    ensures
        ({
            let page = console::gpu_report(s, hw, name);
            match hardware::gpu_answer(name) {
                Some((bw, tf)) => {
                    &&& tells(page, ": ", numeral::decimal(bw as nat))
                    &&& tells(
                        page,
                        " GB/s, ",
                        numeral::fixed1(console::from_tenths(tf as nat)),
                    )
                    &&& hw.vram_mb == 0 ==> tells(
                        page,
                        " TFLOPS fp16",
                        encode_utf8("\nset vram too, e.g. `vram 24576`"@),
                    )
                },
                None => stands(
                    page,
                    name + encode_utf8(
                        " is not in the table — set `bw <GB/s>` for a real estimate"@,
                    ),
                ),
            }
        }),
{
    lemma_put();
    reveal(console::gpu_report);
}

/// What stands in a report stays in it when a row follows.
proof fn lemma_row_stays(rec: RecData)
    ensures
        forall|s: Sink, piece: Seq<u8>|
            stands(s, piece) ==> #[trigger] stands(console::row_spec(s, rec), piece),
{
    lemma_put();
}

/// A row among the rows.
proof fn lemma_rows(s: Sink, top: Seq<RecData>, n: nat, i: nat)
    requires
        i < n <= top.len(),
    ensures
        forall|piece: Seq<u8>|
            stands(console::row_spec(console::rows_spec(s, top, i), top[i as int]), piece)
                ==> #[trigger] stands(console::rows_spec(s, top, n), piece),
    decreases n,
{
    let before = console::rows_spec(s, top, (n - 1) as nat);
    assert(console::rows_spec(s, top, n) == console::row_spec(before, top[n - 1]));
    if i < n - 1 {
        lemma_rows(s, top, (n - 1) as nat, i);
        lemma_row_stays(top[n - 1]);
        assert forall|piece: Seq<u8>|
            stands(
                console::row_spec(console::rows_spec(s, top, i), top[i as int]),
                piece,
            ) implies #[trigger] stands(console::rows_spec(s, top, n), piece) by {
            assert(stands(before, piece));
            assert(stands(console::row_spec(before, top[n - 1]), piece));
        }
    }
}

/// A row of a console shows the format, the throughput with its mark, and the
/// verdict.
pub proof fn law_what_a_row_shows(s: Sink, rec: RecData)
    ensures
        ({
            let row = console::row_spec(s, rec);
            &&& stands(
                row,
                numeral::fixed1(console::from_tenths(rec.speed.decode_tps_x10 as nat)) + seq![
                    console::mark_spec(rec.speed.method),
                ],
            )
            &&& stands(row, encode_utf8(rec.fit.verdict.name_spec()@) + encode_utf8("\n"@))
        }),
{
    lemma_put();
}

/// A ranking shows the first entries, as many as asked for, row `i` being of entry
/// `i`; where there is none it says so, and what it was cut short of is told.
pub proof fn law_what_go_shows(s: Sink, top: Seq<RecData>, limit: nat, i: nat) -> (d: Sink)
    ensures
        ({
            let page = console::ranking_spec(s, top, limit);
            &&& top.len() == 0 ==> page == s.put(
                encode_utf8(
                    "nothing in the catalog runs on this hardware.\ntry `kv q8`, `ctx 4096`, or more ram."@,
                ),
            )
            &&& i < top.len() && i < limit ==> forall|piece: Seq<u8>|
                stands(
                    console::row_spec(console::rows_spec(d, top, i), top[i as int]),
                    piece,
                ) ==> #[trigger] stands(page, piece)
            &&& top.len() > 0 && limit == 0 && !s.overflowed ==> page.overflowed || page == s.put(
                encode_utf8("MODEL                        QUANT   TOK/S      FIT\n"@),
            )
        }),
{
    reveal(console::ranking_spec);
    lemma_put();
    let d = s.say("MODEL                        QUANT   TOK/S      FIT\n");
    let n = if limit < top.len() {
        limit
    } else {
        top.len()
    };
    if i < n {
        lemma_rows(d, top, n, i);
    }
    if n == 0 && top.len() > 0 {
        reveal(Sink::put);
        assert(console::rows_spec(d, top, 0) == d);
    }
    d
}

/// What the commands that report answer: `hw` shows the machine, `go` and `list` the
/// best 32 of the catalog as far as rows are asked for, and `fit` the model that is
/// found under the name, on the machine and under the options of the session, or
/// that there is none.
pub proof fn law_what_is_reported(c: Console, line: Seq<u8>, cat: CatalogData, cap: nat)
    requires
        text::trimmed(line).len() > 0,
    ensures
        ({
            let (cmd, rest) = console::parted(line);
            let page = console::handled(c, line, cat, cap).1;
            let empty = Sink::empty(cap);
            &&& cmd == encode_utf8("hw"@) ==> page == console::hardware_spec(
                empty,
                c.hardware,
                c.opts.kv_quant,
            )
            &&& cmd == encode_utf8("go"@) || cmd == encode_utf8("list"@) ==> page
                == console::ranking_spec(
                empty,
                recommend::ranked(cat, c.hardware, c.opts, c.filter, 32, cat.count),
                c.limit as nat,
            )
            &&& cmd == encode_utf8("fit"@) && rest.len() == 0 ==> page == empty.put(
                encode_utf8("fit <model name>"@),
            )
            &&& cmd == encode_utf8("fit"@) && rest.len() > 0 ==> match cat.find(rest) {
                Some(i) => page == console::detail_spec(
                    empty,
                    recommend::evaluated(cat, cat.model(i), c.hardware, c.opts),
                ),
                None => tells(page, "no model matching \"", rest),
            }
        }),
{
    settings::lemma_words();
    lemma_put();
    reveal(console::fit_report);
}

/// What the commands that set something answer: the name of the number and what it
/// is now, or that it needs one.
pub proof fn law_what_is_confirmed(c: Console, line: Seq<u8>, cat: CatalogData, cap: nat)
    requires
        text::trimmed(line).len() > 0,
    ensures
        ({
            let (cmd, rest) = console::parted(line);
            let page = console::handled(c, line, cat, cap).1;
            let given = text::plain_number(text::trimmed(rest), 0xffff_ffff);
            let is = |w: &str| cmd == encode_utf8(w@);
            &&& is("ram") || is("vram") || is("bw") || is("tflops") ==> match given {
                Some(v) => tells(page, " = ", numeral::decimal(v)) && stands(
                    page,
                    cmd + encode_utf8(" = "@),
                ),
                None => stands(page, cmd + encode_utf8(" needs a number"@)),
            }
            &&& is("ctx") ==> match given {
                Some(v) => tells(page, "context capped at ", numeral::decimal(v)),
                None => page == Sink::empty(cap).put(encode_utf8("context = model native"@)),
            }
        }),
{
    settings::lemma_words();
    lemma_put();
    reveal(console::after_number);
    reveal(console::after_ctx);
}

} // verus!
