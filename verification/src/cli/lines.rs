//! What is shown of a recommendation, and where it stands.

use vstd::prelude::*;
use vstd::utf8::*;

use crate::catalog::flags;
use crate::cli::listing;
use crate::cli::{Arg, CliData, CliError};
use crate::console;
use crate::fit::KvSource;
use crate::float::Single;
use crate::hardware::Hardware;
use crate::numeral;
use crate::page::Draft;
use crate::recommend::RecData;
use crate::text;

verus! {

/// Whether a text stands on a page.
#[verifier::opaque]
pub open spec fn stands(d: Draft, piece: Seq<u8>) -> bool {
    text::occurs(d.text, piece)
}

/// Whether a text stands on a page, right behind a word.
pub open spec fn tells(d: Draft, word: &str, what: Seq<u8>) -> bool {
    stands(d, encode_utf8(word@) + what)
}

/// What is put on a page stays on it.
pub(crate) proof fn lemma_put()
    ensures
        forall|d: Draft, s: Seq<u8>, piece: Seq<u8>|
            stands(d, piece) ==> #[trigger] stands(d.put(s), piece),
        forall|d: Draft, n: int, piece: Seq<u8>|
            stands(d, piece) ==> #[trigger] stands(d.spaces(n), piece),
        forall|d: Draft, k: Seq<u8>, v: Seq<u8>| #[trigger] stands(d.put(k).put(v), k + v),
{
    assert forall|d: Draft, s: Seq<u8>, piece: Seq<u8>| stands(d, piece) implies #[trigger] stands(
        d.put(s),
        piece,
    ) by {
        lemma_stays(d, s, piece);
    }
    assert forall|d: Draft, n: int, piece: Seq<u8>| stands(d, piece) implies #[trigger] stands(
        d.spaces(n),
        piece,
    ) by {
        lemma_stays_spaced(d, n, piece);
    }
    assert forall|d: Draft, k: Seq<u8>, v: Seq<u8>| #[trigger] stands(d.put(k).put(v), k + v) by {
        reveal(Draft::put);
        reveal(stands);
        let t = d.put(k).put(v).text;
        let i = d.text.len() as int;
        assert(t.subrange(i, i + (k + v).len()) =~= k + v);
        assert(text::occurs_at(t, k + v, i));
    }
}

proof fn lemma_stays(d: Draft, s: Seq<u8>, piece: Seq<u8>)
    requires
        stands(d, piece),
    ensures
        stands(d.put(s), piece),
{
    reveal(Draft::put);
    reveal(stands);
    let i = choose|i: int| text::occurs_at(d.text, piece, i);
    assert(d.put(s).text.subrange(i, i + piece.len()) =~= d.text.subrange(i, i + piece.len()));
    assert(text::occurs_at(d.put(s).text, piece, i));
}

proof fn lemma_stays_spaced(d: Draft, n: int, piece: Seq<u8>)
    requires
        stands(d, piece),
    ensures
        stands(d.spaces(n), piece),
    decreases n,
{
    if n > 0 {
        lemma_stays_spaced(d, n - 1, piece);
        lemma_stays(d.spaces(n - 1), seq![32u8], piece);
    }
}

/// In a listing for machines every figure of an entry stands under its key, and
/// what was not estimated is null.
pub proof fn law_every_figure_stands_under_its_key(d: Draft, rec: RecData)
    ensures
        ({
            let item = listing::json_item(d, rec);
            let f = rec.fit;
            let number = |key: &str, n: nat| tells(item, key, numeral::decimal(n));
            let tenths = |key: &str, n: nat|
                tells(item, key, numeral::fixed1(console::from_tenths(n)));
            let word = |key: &str, w: &str| tells(item, key, encode_utf8(w@));
            &&& tells(item, "  {\"name\":\"", listing::escaped(rec.model.name()))
            &&& number("\",\"params_m\":", rec.model.params_m() as nat)
            &&& word(",\"quant\":\"", f.quant.name_spec())
            &&& word("\",\"verdict\":\"", f.verdict.name_spec())
            &&& word("\",\"run_mode\":\"", f.run_mode.name_spec())
            &&& number("\",\"memory_mb\":", f.memory.resident_spec() as nat)
            &&& number(",\"pool_mb\":", f.pool_mb as nat)
            &&& tenths(",\"utilization_pct\":", f.utilization_pctx10 as nat)
            &&& tenths(",\"decode_tps\":", rec.speed.decode_tps_x10 as nat)
            &&& word(",\"estimate_method\":\"", rec.speed.method.name_spec())
            &&& number("\",\"bandwidth_gbps\":", rec.speed.bandwidth_gbps as nat)
            &&& number(",\"usable_context\":", f.usable_context as nat)
            &&& number(",\"native_context\":", rec.model.context_length() as nat)
            &&& f.memory.kv_source == KvSource::Metadata ==> word(",\"kv_source\":\"", "metadata")
            &&& f.memory.kv_source == KvSource::Estimated ==> word(
                ",\"kv_source\":\"",
                "estimated",
            )
            &&& match rec.speed.prefill_tps_x10 {
                Some(v) => tenths("\",\"prefill_tps\":", v as nat),
                None => word("\",\"prefill_tps\":", "null"),
            }
            &&& match rec.speed.ttft_ms {
                Some(v) => number(",\"ttft_ms\":", v as nat),
                None => word(",\"ttft_ms\":", "null"),
            }
            &&& number(",\"scores\":{\"quality\":", rec.scores.quality as nat)
            &&& number(",\"speed\":", rec.scores.speed as nat)
            &&& number(",\"fit\":", rec.scores.fit as nat)
            &&& number(",\"context\":", rec.scores.context as nat)
            &&& number(",\"composite\":", rec.scores.composite as nat)
        }),
{
    lemma_put();
    reveal(listing::json_fit);
    reveal(listing::json_speed);
    reveal(listing::json_scores);
}

/// A line of a ranking shows the format, the memory that is taken, the throughput
/// with the mark of where it comes from, the verdict, the context that fits, and
/// the composite in hundredths.
pub proof fn law_what_a_line_shows(d: Draft, rec: RecData)
    ensures
        ({
            let row = listing::row_spec(d, rec);
            let then = |what: Seq<u8>, next: Seq<u8>| stands(row, what + next);
            let space = encode_utf8(" "@);
            &&& then(encode_utf8(rec.fit.quant.name_spec()@), space)
            &&& then(
                numeral::decimal(rec.fit.memory.resident_spec() as nat),
                encode_utf8(" MiB "@),
            )
            &&& then(
                numeral::fixed1(console::from_tenths(rec.speed.decode_tps_x10 as nat)),
                seq![console::mark_spec(rec.speed.method)],
            )
            &&& then(encode_utf8(rec.fit.verdict.name_spec()@), space)
            &&& then(listing::tokens_spec(rec.fit.usable_context), space)
            &&& then(
                numeral::decimal((rec.scores.composite / 100) as nat),
                encode_utf8("\n"@),
            )
        }),
{
    lemma_put();
    reveal(listing::row_spec);
}

proof fn lemma_row_stays(rec: RecData)
    ensures
        forall|d: Draft, piece: Seq<u8>|
            stands(d, piece) ==> #[trigger] stands(listing::row_spec(d, rec), piece),
{
    lemma_put();
    reveal(listing::row_spec);
}

/// A row among the rows.
proof fn lemma_rows(d: Draft, top: Seq<RecData>, n: nat, i: nat)
    requires
        i < n <= top.len(),
    ensures
        forall|piece: Seq<u8>|
            stands(listing::row_spec(listing::rows_spec(d, top, i), top[i as int]), piece)
                ==> #[trigger] stands(listing::rows_spec(d, top, n), piece),
    decreases n,
{
    let before = listing::rows_spec(d, top, (n - 1) as nat);
    assert(listing::rows_spec(d, top, n) == listing::row_spec(before, top[n - 1]));
    if i < n - 1 {
        lemma_rows(d, top, (n - 1) as nat, i);
        lemma_row_stays(top[n - 1]);
        assert forall|piece: Seq<u8>|
            stands(
                listing::row_spec(listing::rows_spec(d, top, i), top[i as int]),
                piece,
            ) implies #[trigger] stands(listing::rows_spec(d, top, n), piece) by {
            assert(stands(before, piece));
            assert(stands(listing::row_spec(before, top[n - 1]), piece));
        }
    }
}

/// A ranking tells how many models it shows and how many there are, and shows each
/// of them, the best first: row `i` is of entry `i`, behind those before it, and
/// all that a row shows stands in the ranking.
pub proof fn law_what_a_ranking_shows(
    hw: Hardware,
    gpu: Option<Seq<u8>>,
    cli: CliData,
    top: Seq<RecData>,
    count: nat,
    i: nat,
) -> (d: Draft)
    ensures
        ({
            let page = listing::ranking_spec(hw, gpu, cli, top, count);
            let n = if cli.limit < top.len() {
                cli.limit as nat
            } else {
                top.len()
            };
            &&& stands(page, numeral::decimal(n) + encode_utf8(" of "@))
            &&& stands(page, numeral::decimal(count) + encode_utf8(" models scored\n\n"@))
            &&& tells(page, " — ", numeral::decimal(hw.ram_mb as nat))
            &&& tells(page, " MiB RAM, ", numeral::decimal(hw.vram_mb as nat))
            &&& tells(page, " MiB VRAM, ", encode_utf8(hw.backend.name_spec()@))
            &&& cli.use_case matches Some(u) ==> tells(
                page,
                "use case: ",
                encode_utf8(u.name_spec()@),
            )
            &&& i < n ==> forall|piece: Seq<u8>|
                stands(
                    listing::row_spec(listing::rows_spec(d, top, i), top[i as int]),
                    piece,
                ) ==> #[trigger] stands(page, piece)
        }),
{
    reveal(listing::ranking_spec);
    lemma_put();
    let n = listing::shown(top, cli.limit);
    let d = Draft::empty().put(
        match gpu {
            Some(name) => name,
            None => text::bytes("CPU only"),
        },
    ).say(" — ").decimal(hw.ram_mb as nat).say(" MiB RAM, ").decimal(hw.vram_mb as nat).say(
        " MiB VRAM, ",
    ).say(hw.backend.name_spec()).say("\n");
    let d = match cli.use_case {
        Some(u) => d.say("use case: ").say(u.name_spec()).say("\n"),
        None => d,
    };
    let d = d.decimal(n).say(" of ").decimal(count).say(" models scored\n\n").say(
        listing::heading(),
    );
    assert(listing::ranking_spec(hw, gpu, cli, top, count) == listing::rows_spec(d, top, n).say(
        listing::legend(),
    ));
    lemma_head_stays(d, top, n);
    if i < n {
        lemma_rows(d, top, n, i);
    }
    d
}

/// What stands above the rows stays.
proof fn lemma_head_stays(d: Draft, top: Seq<RecData>, n: nat)
    requires
        n <= top.len(),
    ensures
        forall|piece: Seq<u8>|
            stands(d, piece) ==> #[trigger] stands(listing::rows_spec(d, top, n), piece),
    decreases n,
{
    if n > 0 {
        let before = listing::rows_spec(d, top, (n - 1) as nat);
        lemma_head_stays(d, top, (n - 1) as nat);
        lemma_row_stays(top[n - 1]);
        assert forall|piece: Seq<u8>| stands(d, piece) implies #[trigger] stands(
            listing::rows_spec(d, top, n),
            piece,
        ) by {
            assert(stands(before, piece));
            assert(stands(listing::row_spec(before, top[n - 1]), piece));
        }
    }
}

/// What stands on a page stays on it when a part of a report follows.
proof fn lemma_parts(rec: RecData)
    ensures
        forall|d: Draft, piece: Seq<u8>|
            stands(d, piece) ==> #[trigger] stands(listing::memory_lines(d, rec), piece),
        forall|d: Draft, piece: Seq<u8>|
            stands(d, piece) ==> #[trigger] stands(listing::speed_lines(d, rec), piece),
{
    lemma_put();
    reveal(listing::memory_lines);
    reveal(listing::speed_lines);
}

/// The report of one model shows the verdict, where the model runs, in which
/// format, and what it is for.
pub proof fn law_what_a_report_shows_of_the_verdict(rec: RecData)
    ensures
        ({
            let page = listing::detail_spec(rec);
            let f = rec.fit;
            let said = |word: &str, w: &str| tells(page, word, encode_utf8(w@));
            &&& said("\n\n  verdict     ", f.verdict.name_spec())
            &&& said(" on ", f.run_mode.name_spec())
            &&& said("\n  quant       ", f.quant.name_spec())
            &&& tells(page, ", ", listing::tokens_spec(rec.model.context_length()))
            &&& said(" native context, ", rec.model.use_case().name_spec())
        }),
{
    lemma_parts(rec);
    lemma_put();
    reveal(listing::fit_lines);
}

/// The report of one model shows what the memory goes to, and the context that
/// fits beside the one that is advertised.
pub proof fn law_what_a_report_shows_of_the_memory(rec: RecData)
    ensures
        ({
            let page = listing::detail_spec(rec);
            let (f, m) = (rec.fit, rec.fit.memory);
            let number = |word: &str, n: nat| tells(page, word, numeral::decimal(n));
            let said = |word: &str, w: &str| tells(page, word, encode_utf8(w@));
            &&& number("  memory      ", m.resident_spec() as nat)
            &&& number(" MiB of ", f.pool_mb as nat)
            &&& tells(
                page,
                " MiB pool (",
                numeral::fixed1(console::from_tenths(f.utilization_pctx10 as nat)),
            )
            &&& number("%)\n              weights ", m.weights_mb as nat)
            &&& number(" MiB + KV ", m.kv_cache_mb as nat)
            &&& m.kv_source == KvSource::Metadata ==> said(" MiB (", "from model config")
            &&& m.kv_source == KvSource::Estimated ==> said(
                " MiB (",
                "estimated from size class",
            )
            &&& number(") + overhead ", m.overhead_mb as nat)
            &&& m.offloaded_mb > 0 ==> number("              ", m.offloaded_mb as nat)
            &&& tells(page, "  context     ", listing::tokens_spec(f.usable_context))
            &&& tells(page, " usable of ", listing::tokens_spec(rec.model.context_length()))
        }),
{
    let d = listing::fit_lines(Draft::empty(), rec);
    lemma_parts(rec);
    assert(listing::detail_spec(rec) == listing::speed_lines(listing::memory_lines(d, rec), rec));
    lemma_memory(d, rec);
}

proof fn lemma_memory(d: Draft, rec: RecData)
    ensures
        ({
            let page = listing::memory_lines(d, rec);
            let (f, m) = (rec.fit, rec.fit.memory);
            let number = |word: &str, n: nat| tells(page, word, numeral::decimal(n));
            let said = |word: &str, w: &str| tells(page, word, encode_utf8(w@));
            &&& number("  memory      ", m.resident_spec() as nat)
            &&& number(" MiB of ", f.pool_mb as nat)
            &&& tells(
                page,
                " MiB pool (",
                numeral::fixed1(console::from_tenths(f.utilization_pctx10 as nat)),
            )
            &&& number("%)\n              weights ", m.weights_mb as nat)
            &&& number(" MiB + KV ", m.kv_cache_mb as nat)
            &&& said(" MiB (", listing::kv_phrase(m.kv_source))
            &&& number(") + overhead ", m.overhead_mb as nat)
            &&& m.offloaded_mb > 0 ==> number("              ", m.offloaded_mb as nat)
            &&& tells(page, "  context     ", listing::tokens_spec(f.usable_context))
            &&& tells(page, " usable of ", listing::tokens_spec(rec.model.context_length()))
        }),
{
    lemma_put();
    reveal(listing::memory_lines);
}

/// The report of one model shows the throughput and where it comes from, what
/// prompts take where that is estimated, and every score.
pub proof fn law_what_a_report_shows_of_the_speed(rec: RecData)
    ensures
        ({
            let page = listing::detail_spec(rec);
            let number = |word: &str, n: nat| tells(page, word, numeral::decimal(n));
            &&& tells(
                page,
                "  decode      ",
                numeral::fixed1(console::from_tenths(rec.speed.decode_tps_x10 as nat)),
            )
            &&& tells(page, " tok/s  (", encode_utf8(rec.speed.method.name_spec()@))
            &&& number(" at ", rec.speed.bandwidth_gbps as nat)
            &&& tells(
                page,
                " GB/s, ",
                numeral::fixed0(rec.speed.efficiency.mul_spec(Single::nearest(100, 1))),
            )
            &&& match (rec.speed.prefill_tps_x10, rec.speed.ttft_ms) {
                (Some(p), Some(t)) => {
                    &&& tells(
                        page,
                        "  prefill     ",
                        numeral::fixed0(console::from_tenths(p as nat)),
                    )
                    &&& number(" tok/s, ", t as nat)
                    &&& tells(
                        page,
                        " ms to first token at ",
                        listing::tokens_spec(rec.fit.effective_context),
                    )
                },
                _ => tells(
                    page,
                    "  prefill     not estimated (fp16 throughput unknown for this hardware)\n",
                    encode_utf8("\n  scores      quality "@),
                ),
            }
            &&& number("\n  scores      quality ", rec.scores.quality as nat)
            &&& number("  speed ", rec.scores.speed as nat)
            &&& number("  fit ", rec.scores.fit as nat)
            &&& number("  context ", rec.scores.context as nat)
            &&& number("  →  ", (rec.scores.composite / 100) as nat)
        }),
{
    lemma_put();
    reveal(listing::speed_lines);
}

/// What is shown of the machine at hand: its memory and what is left of it, its
/// accelerator, its backend, and its figures or that they are not known.
pub proof fn law_what_is_shown_of_the_machine(
    cpu: Seq<u8>,
    cores: usize,
    gpu: Option<Seq<u8>>,
    hw: Hardware,
)
    ensures
        ({
            let page = listing::machine_lines(cpu, cores, gpu, hw);
            let number = |word: &str, n: nat| tells(page, word, numeral::decimal(n));
            let said = |word: &str, w: &str| tells(page, word, encode_utf8(w@));
            let (bw, source) = hw.gpu_bandwidth_spec();
            &&& tells(page, "CPU       ", cpu)
            &&& number(" (", cores as nat)
            &&& number(" physical cores)\nRAM       ", hw.ram_mb as nat)
            &&& hw.ram_mb >= hw.os_reserve_mb ==> number(
                " MiB total, ",
                (hw.ram_mb - hw.os_reserve_mb) as nat,
            )
            &&& hw.ram_mb < hw.os_reserve_mb ==> number(" MiB total, ", 0)
            &&& match gpu {
                Some(name) => {
                    &&& tells(page, "GPU       ", name)
                    &&& number(" — ", hw.vram_mb as nat)
                    &&& hw.unified ==> said(" MiB ", "unified\n")
                    &&& !hw.unified ==> said(" MiB ", "dedicated\n")
                },
                None => said("GPU       none detected\n", "Backend   "),
            }
            &&& said("Backend   ", hw.backend.name_spec())
            &&& Single::nearest(0, 1).below(bw) ==> tells(
                page,
                "Bandwidth ",
                numeral::fixed0(bw),
            ) && said(" GB/s (", source.name_spec())
            &&& !Single::nearest(0, 1).below(bw) ==> stands(
                page,
                encode_utf8("\n"@) + encode_utf8(
                    "Bandwidth unknown — speed estimates use the backend constant\n"@,
                ),
            )
            &&& hw.tflops_fp16_x10 > 0 ==> tells(
                page,
                "fp16      ",
                numeral::fixed1(console::from_tenths(hw.tflops_fp16_x10 as nat)),
            )
        }),
{
    lemma_put();
    reveal(listing::machine_lines);
}

/// Parameters are shown in billions from a thousand million on, tokens in units of
/// 1024 from a thousand on, and the active share of a sparse model beside it.
pub proof fn law_how_counts_are_shown(d: Draft, m: u32, t: u32, rec: RecData)
    ensures
        m < 1000 ==> listing::params_spec(d, m) == d.put(numeral::decimal(m as nat)).put(
            encode_utf8("M"@),
        ),
        m >= 1000 ==> listing::params_spec(d, m) == d.put(
            numeral::fixed1(Single::nearest(m as nat, 1).div_spec(Single::nearest(1000, 1))),
        ).put(encode_utf8("B"@)),
        t < 1000 ==> listing::tokens_spec(t) == numeral::decimal(t as nat),
        t >= 1000 ==> listing::tokens_spec(t) == numeral::decimal((t / 1024) as nat).push(107),
        rec.model.has_flag(flags::MOE) ==> stands(
            listing::detail_spec(rec),
            encode_utf8(" params"@) + encode_utf8(" ("@),
        ),
        !rec.model.has_flag(flags::MOE) ==> stands(
            listing::detail_spec(rec),
            encode_utf8(" params"@) + encode_utf8(", "@),
        ),
{
    lemma_parts(rec);
    lemma_put();
    reveal(listing::fit_lines);
}

/// A complaint repeats the argument that it is about.
pub proof fn law_complaints_say_what_is_wrong(e: CliError, args: Seq<Arg>)
    ensures
        ({
            let page = e.message_spec(args);
            let arg = |i: usize| encode_utf8(args[i as int].text@);
            match e {
                CliError::NeedsValue(i) => stands(page, arg(i) + encode_utf8(" needs a value"@)),
                CliError::NotANumber(i) => stands(
                    page,
                    arg(i) + encode_utf8(" must be a number"@),
                ),
                CliError::UnknownUseCase(i) => tells(page, "unknown use case: ", arg(i)),
                CliError::UnknownFit(i) => tells(
                    page,
                    "unknown fit level: ",
                    text::lowered(arg(i)),
                ),
                CliError::UnknownKv(i) => tells(
                    page,
                    "unknown KV precision: ",
                    text::lowered(arg(i)),
                ),
                CliError::UnknownQuant(i) => tells(page, "unknown quantization: ", arg(i)),
                CliError::BadEfficiency => page == Draft::empty().put(
                    encode_utf8("--efficiency must be a number like 0.55"@),
                ),
                CliError::UnknownFlag(i) => tells(page, "unknown flag: ", arg(i)),
            }
        }),
{
    lemma_put();
}

/// What stands on a page stays on it when an entry follows.
proof fn lemma_item_stays(rec: RecData)
    ensures
        forall|d: Draft, piece: Seq<u8>|
            stands(d, piece) ==> #[trigger] stands(listing::json_item(d, rec), piece),
{
    lemma_put();
    reveal(listing::json_fit);
    reveal(listing::json_speed);
    reveal(listing::json_scores);
}

/// A listing for machines has an entry for each model that is shown, in their order:
/// entry `i` stands behind those before it, parted from them by a comma, and all
/// that an entry says stands in the listing.
pub proof fn law_what_a_listing_holds(top: Seq<RecData>, n: nat, i: nat) -> (d: Draft)
    requires
        i < n <= top.len(),
    ensures
        forall|piece: Seq<u8>|
            stands(listing::json_item(d, top[i as int]), piece) ==> #[trigger] stands(
                listing::json_spec(top, n),
                piece,
            ),
        i == 0 ==> d == Draft::empty().put(encode_utf8("{\"models\":[\n"@)),
        i > 0 ==> d == listing::json_items(
            Draft::empty().put(encode_utf8("{\"models\":[\n"@)),
            top,
            i,
        ).put(encode_utf8(",\n"@)),
{
    lemma_put();
    let start = Draft::empty().say("{\"models\":[\n");
    let before = listing::json_items(start, top, i);
    let d = if i > 0 {
        before.say(",\n")
    } else {
        start
    };
    lemma_items(start, top, n, i, d);
    d
}

proof fn lemma_items(start: Draft, top: Seq<RecData>, n: nat, i: nat, d: Draft)
    requires
        i < n <= top.len(),
        d == if i > 0 {
            listing::json_items(start, top, i).say(",\n")
        } else {
            start
        },
    ensures
        forall|piece: Seq<u8>|
            stands(listing::json_item(d, top[i as int]), piece) ==> #[trigger] stands(
                listing::json_items(start, top, n),
                piece,
            ),
    decreases n,
{
    let before = listing::json_items(start, top, (n - 1) as nat);
    let led = if n > 1 {
        before.say(",\n")
    } else {
        before
    };
    assert(listing::json_items(start, top, n) == listing::json_item(led, top[n - 1]));
    if i < n - 1 {
        lemma_items(start, top, (n - 1) as nat, i, d);
        lemma_item_stays(top[n - 1]);
        lemma_put();
        assert forall|piece: Seq<u8>|
            stands(listing::json_item(d, top[i as int]), piece) implies #[trigger] stands(
            listing::json_items(start, top, n),
            piece,
        ) by {
            assert(stands(before, piece));
            assert(stands(led, piece));
            assert(stands(listing::json_item(led, top[n - 1]), piece));
        }
    } else {
        assert(listing::json_items(start, top, 0) == start);
    }
}

/// Inside a string of a listing a quote or a backslash is led by a backslash, and
/// everything else stands as it is.
pub proof fn law_quotes_are_led_by_a_backslash(s: Seq<u8>, b: u8)
    ensures
        listing::escaped(Seq::<u8>::empty()) == Seq::<u8>::empty(),
        b == 34 || b == 92 ==> listing::escaped(s.push(b)) == listing::escaped(s).push(92).push(b),
        b != 34 && b != 92 ==> listing::escaped(s.push(b)) == listing::escaped(s).push(b),
{
    assert(s.push(b).drop_last() =~= s);
}

} // verus!
