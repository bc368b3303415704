//! What is made of what a machine reports.

use vstd::prelude::*;
use vstd::utf8::*;

use crate::detect;
use crate::detect::{Facts, Note, Probe};
use crate::float::about;
use crate::float::Single;
use crate::hardware;
use crate::hardware::Backend;
use crate::text;

verus! {

/// Memory is counted in units of 1,048,576 bytes, as far as it can be held, and
/// more is kept from models where there is more than sixteen gigabytes of it.
pub proof fn law_memory_at_hand(f: Facts)
    ensures
        ({
            let hw = detect::hardware_spec(f);
            &&& f.memory < 0x10_0000_0000_0000 ==> hw.ram_mb * 1_048_576 <= f.memory < (hw.ram_mb
                + 1) * 1_048_576
            &&& hw.ram_mb > 16_384 ==> hw.os_reserve_mb == 4096
            &&& hw.ram_mb <= 16_384 ==> hw.os_reserve_mb == 2048
            &&& hw.ram_bandwidth_gbps == 0
        }),
{
}

/// On Apple silicon the accelerator is the processor itself: it shares the memory
/// and may take three quarters of it.
pub proof fn law_apple_silicon_shares_its_memory(f: Facts)
    requires
        f.macos,
        f.arm,
    ensures
        ({
            let hw = detect::hardware_spec(f);
            &&& hw.unified
            &&& hw.backend == Backend::Metal
            &&& detect::accelerator(f).0 == Some(detect::cpu_name_spec(f))
            &&& about::cut(hw.vram_mb as int, 3 * hw.ram_mb, 4, 5, 0xffff_ffff)
            &&& forall|n: Note| #[trigger] detect::notes_spec(f).contains(n) ==> n
                == Note::NotInTable
        }),
{
    let ram = detect::hardware_spec(f).ram_mb;
    let (a, b) = (Single::nearest(ram as nat, 1), Single::nearest(3, 4));
    about::lemma_ratio(ram as nat, 1);
    about::lemma_ratio(3, 4);
    about::lemma_wide(ram * 3, 4);
    about::lemma_times(a, ram as int, 1, 1, b, 3, 4, 1);
    about::lemma_cut(a.mul_spec(b), ram * 3, 4, 5, u32::MAX as nat);
}

/// Elsewhere an NVIDIA card is taken where one is listed, an AMD card where only
/// one of those is, and the processor where neither is. None of them shares its
/// memory with the system.
pub proof fn law_which_accelerator_is_taken(f: Facts)
    requires
        !(f.macos && f.arm),
    ensures
        ({
            let hw = detect::hardware_spec(f);
            let nvidia = match f.nvidia {
                Probe::Output(s) => detect::nvidia_spec(encode_utf8(s@)),
                _ => None,
            };
            let amd = match f.amd {
                Probe::Output(s) => detect::amd_spec(encode_utf8(s@)),
                _ => None,
            };
            &&& !hw.unified
            &&& nvidia matches Some(card) ==> hw.backend == Backend::Cuda && hw.vram_mb == card.1
                && detect::accelerator(f).0 == Some(card.0)
            &&& nvidia is None ==> match amd {
                Some(card) => hw.backend == Backend::Rocm && hw.vram_mb == card.1
                    && detect::accelerator(f).0 == Some(card.0),
                None => {
                    &&& hw.vram_mb == 0
                    &&& detect::accelerator(f).0 is None
                    &&& f.arm ==> hw.backend == Backend::CpuArm
                    &&& !f.arm ==> hw.backend == Backend::CpuX86
                },
            }
        }),
{
}

/// The figures of an accelerator are those that are known under its name, and none
/// where it is not known, which is said.
pub proof fn law_the_figures_of_what_was_found(f: Facts)
    ensures
        ({
            let hw = detect::hardware_spec(f);
            match detect::accelerator(f).0 {
                Some(name) => match hardware::gpu_answer(name) {
                    Some(k) => hw.gpu_bandwidth_gbps == k.0 && hw.tflops_fp16_x10 == k.1
                        && !detect::notes_spec(f).contains(Note::NotInTable),
                    None => hw.gpu_bandwidth_gbps == 0 && hw.tflops_fp16_x10 == 0
                        && detect::notes_spec(f).contains(Note::NotInTable),
                },
                None => hw.gpu_bandwidth_gbps == 0 && hw.tflops_fp16_x10 == 0,
            }
        }),
{
    let notes = detect::notes_spec(f);
    if let Some(name) = detect::accelerator(f).0 {
        if hardware::gpu_answer(name) is None {
            assert(notes.last() == Note::NotInTable);
        }
    }
}

/// What failed is said: a tool that was asked, ran and failed, and only that.
pub proof fn law_failures_are_told(f: Facts)
    ensures
        ({
            let notes = detect::notes_spec(f);
            let elsewhere = !(f.macos && f.arm);
            &&& notes.contains(Note::NvidiaFailed) <==> elsewhere && f.nvidia is Failed
            &&& notes.contains(Note::AmdFailed) <==> elsewhere && f.amd is Failed
                && detect::said_nvidia(f.nvidia) is None
            &&& notes.contains(Note::NoAccelerator) <==> detect::accelerator(f).0 is None
        }),
{
    let a = detect::noted(!(f.macos && f.arm) && f.nvidia is Failed, Note::NvidiaFailed);
    let b = detect::noted(
        !(f.macos && f.arm) && detect::said_nvidia(f.nvidia) is None && f.amd is Failed,
        Note::AmdFailed,
    );
    let c = detect::noted(detect::accelerator(f).0 is None, Note::NoAccelerator);
    let notes = detect::notes_spec(f);
    if a.len() > 0 {
        assert(notes[0] == Note::NvidiaFailed);
    }
    if b.len() > 0 {
        assert(notes[a.len() as int] == Note::AmdFailed);
    }
    if c.len() > 0 {
        assert(notes[(a.len() + b.len()) as int] == Note::NoAccelerator);
    }
}

/// A listing of NVIDIA cards names the first and counts the memory of all; the
/// name stands before the first comma of a line and the megabytes after it.
pub proof fn law_cards_are_counted_together(output: Seq<u8>, i: int)
    ensures
        ({
            let lines = text::pieces(output, 10);
            let fields = text::pieces(lines[i], 44);
            detect::nvidia_spec(output) matches Some((name, mb)) ==> {
                &&& mb > 0
                &&& 0 <= i < lines.len() && text::trimmed(lines[i]).len() > 0 ==> {
                    &&& fields.len() >= 2
                    &&& text::unsigned(text::trimmed(fields[1]), 0xffff_ffff) matches Some(n) && (
                    n <= mb)
                    &&& (forall|j: int|
                        0 <= j < i ==> text::trimmed(#[trigger] lines[j]).len() == 0) ==> name
                        == text::trimmed(fields[0])
                    &&& (forall|j: int|
                        0 <= j < lines.len() && j != i ==> text::trimmed(
                            #[trigger] lines[j],
                        ).len() == 0) ==> text::unsigned(text::trimmed(fields[1]), 0xffff_ffff)
                        == Some(mb)
                }
            }
        }),
{
    let lines = text::pieces(output, 10);
    if 0 <= i < lines.len() && text::trimmed(lines[i]).len() > 0 && detect::nvidia_spec(
        output,
    ) is Some {
        lemma_listed(lines, i);
    }
}

proof fn lemma_listed(lines: Seq<Seq<u8>>, i: int)
    requires
        0 <= i < lines.len(),
        text::trimmed(lines[i]).len() > 0,
        detect::cards(lines) is Some,
    ensures
        ({
            let cs = detect::cards(lines)->0;
            &&& cs.len() > 0
            &&& detect::card(lines[i]) matches Some(c) && {
                &&& c.1 <= detect::memory_of(cs)
                &&& (forall|j: int| 0 <= j < i ==> text::trimmed(#[trigger] lines[j]).len() == 0)
                    ==> cs[0] == c
                &&& (forall|j: int|
                    0 <= j < lines.len() && j != i ==> text::trimmed(#[trigger] lines[j]).len()
                        == 0) ==> detect::memory_of(cs) == c.1
            }
        }),
    decreases lines.len(),
{
    let rest = lines.drop_last();
    let cs = detect::cards(lines)->0;
    let before = detect::cards(rest)->0;
    let end = lines[lines.len() - 1];
    assert(lines.last() == end);
    assert(detect::cards(rest) is Some);
    assert forall|j: int| 0 <= j < rest.len() implies #[trigger] rest[j] == lines[j] by {}
    if text::trimmed(end).len() == 0 {
        assert(cs == before);
    } else {
        let c = detect::card(end)->0;
        assert(detect::card(end) is Some && cs == before.push(c));
        assert(cs.drop_last() =~= before);
        assert(detect::memory_of(cs) == detect::memory_of(before) + c.1);
    }
    if i < lines.len() - 1 {
        lemma_listed(rest, i);
        assert(cs[0] == before[0]);
        if forall|j: int|
            0 <= j < lines.len() && j != i ==> text::trimmed(#[trigger] lines[j]).len() == 0 {
            assert(text::trimmed(end).len() == 0);
        }
    } else if forall|j: int| 0 <= j < i ==> text::trimmed(#[trigger] lines[j]).len() == 0 {
        lemma_blank(rest);
        assert(before =~= Seq::empty());
        assert(detect::memory_of(before) == 0);
    }
}

proof fn lemma_blank(lines: Seq<Seq<u8>>)
    requires
        forall|j: int| 0 <= j < lines.len() ==> text::trimmed(#[trigger] lines[j]).len() == 0,
    ensures
        detect::cards(lines) == Some(Seq::<(Seq<u8>, nat)>::empty()),
    decreases lines.len(),
{
    if lines.len() > 0 {
        let rest = lines.drop_last();
        assert(text::trimmed(lines[lines.len() - 1]).len() == 0);
        assert forall|j: int| 0 <= j < rest.len() implies text::trimmed(#[trigger] rest[j]).len()
            == 0 by {
            assert(rest[j] == lines[j]);
        }
        lemma_blank(rest);
    }
}

/// A listing of AMD cards gives memory in bytes: where one line alone speaks of the
/// total, that is the first number behind its first comma, in whole megabytes, and
/// there is no card where it is nothing. The name is the one in the second field of
/// the last line that gives a series or a product, or `AMD GPU`.
pub proof fn law_what_an_amd_listing_says(output: Seq<u8>, i: int, j: int)
    requires
        0 <= i < text::pieces(output, 10).len(),
        0 <= j < text::pieces(output, 10).len(),
        forall|k: int|
            0 <= k < text::pieces(output, 10).len() && k != i ==> !tells_memory(
                #[trigger] text::pieces(output, 10)[k],
            ),
        tells_memory(text::pieces(output, 10)[i]),
    ensures
        ({
            let lines = text::pieces(output, 10);
            let fields = text::pieces(lines[i], 44);
            let bytes = detect::first_number(fields, 1);
            let second = text::trimmed(text::pieces(lines[j], 44)[1]);
            &&& bytes == 0 ==> detect::amd_spec(output) is None
            &&& 0 < bytes < 0x10_0000_0000_0000 ==> {
                &&& detect::amd_spec(output) matches Some((name, mb)) && {
                    &&& mb * 1_048_576 <= bytes < (mb + 1) * 1_048_576
                    &&& (forall|k: int| 0 <= k < lines.len() ==> !tells_name(#[trigger] lines[k]))
                        ==> name == encode_utf8("AMD GPU"@)
                    &&& tells_name(lines[j]) && (forall|k: int|
                        j < k < lines.len() ==> !tells_name(#[trigger] lines[k])) ==> name == second
                }
            }
        }),
{
    let lines = text::pieces(output, 10);
    lemma_memory(lines, i);
    lemma_last_name(lines, j);
}

/// Whether a line speaks of all the memory of a card.
pub open spec fn tells_memory(line: Seq<u8>) -> bool {
    text::occurs(text::lowered(line), encode_utf8("vram total memory"@))
}

/// Whether a line gives the name of a card.
pub open spec fn tells_name(line: Seq<u8>) -> bool {
    let low = text::lowered(line);
    let fields = text::pieces(line, 44);
    &&& text::occurs(low, encode_utf8("card series"@)) || text::occurs(
        low,
        encode_utf8("product name"@),
    )
    &&& fields.len() >= 2
    &&& text::trimmed(fields[1]).len() > 0
}

proof fn lemma_memory(lines: Seq<Seq<u8>>, i: int)
    requires
        0 <= i < lines.len(),
        forall|k: int| 0 <= k < lines.len() && k != i ==> !tells_memory(#[trigger] lines[k]),
        tells_memory(lines[i]),
    ensures
        detect::vram_total(lines) == detect::first_number(text::pieces(lines[i], 44), 1),
    decreases lines.len(),
{
    let rest = lines.drop_last();
    assert(lines.last() == lines[lines.len() - 1]);
    assert forall|k: int| 0 <= k < rest.len() implies #[trigger] rest[k] == lines[k] by {}
    if i < lines.len() - 1 {
        lemma_memory(rest, i);
    } else {
        lemma_no_memory(rest);
    }
}

proof fn lemma_no_memory(lines: Seq<Seq<u8>>)
    requires
        forall|k: int| 0 <= k < lines.len() ==> !tells_memory(#[trigger] lines[k]),
    ensures
        detect::vram_total(lines) == 0,
    decreases lines.len(),
{
    if lines.len() > 0 {
        let rest = lines.drop_last();
        assert(lines.last() == lines[lines.len() - 1]);
        assert forall|k: int| 0 <= k < rest.len() implies #[trigger] rest[k] == lines[k] by {}
        lemma_no_memory(rest);
    }
}

proof fn lemma_last_name(lines: Seq<Seq<u8>>, j: int)
    requires
        0 <= j < lines.len(),
    ensures
        (forall|k: int| 0 <= k < lines.len() ==> !tells_name(#[trigger] lines[k]))
            ==> detect::amd_name(lines) == encode_utf8("AMD GPU"@),
        tells_name(lines[j]) && (forall|k: int|
            j < k < lines.len() ==> !tells_name(#[trigger] lines[k])) ==> detect::amd_name(lines)
            == text::trimmed(text::pieces(lines[j], 44)[1]),
    decreases lines.len(),
{
    let rest = lines.drop_last();
    assert(lines.last() == lines[lines.len() - 1]);
    assert forall|k: int| 0 <= k < rest.len() implies #[trigger] rest[k] == lines[k] by {}
    if rest.len() > 0 {
        lemma_last_name(
            rest,
            if j < rest.len() {
                j
            } else {
                0
            },
        );
    } else {
        assert(detect::amd_name(rest) == encode_utf8("AMD GPU"@));
    }
}

} // verus!
