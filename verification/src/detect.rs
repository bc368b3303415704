//! The machine at hand, from what the system and its tools report.
//!
//! All of it may come up empty: a machine on which no accelerator is found still
//! gets a correct answer for its processor, which is better than none. What
//! could not be found out is said, not filled in with something plausible.

use vstd::prelude::*;
use vstd::utf8::*;

use crate::catalog;
use crate::catalog::hw_key;
use crate::float::Single;
use crate::hardware;
use crate::hardware::{lookup_gpu, Backend, Hardware};
use crate::text;

pub mod machine;

verus! {

/// What came of asking a tool.
pub enum Probe {
    /// It could not be run.
    Missing,
    /// It ran and failed.
    Failed,
    /// What it wrote.
    Output(String),
}

/// What is reported of a machine.
pub struct Facts {
    /// Memory in bytes.
    pub memory: u64,
    /// What the first processor calls itself.
    pub cpu_brand: Option<String>,
    pub cpu_cores: usize,
    pub arm: bool,
    pub macos: bool,
    /// `nvidia-smi`, asked for names and megabytes separated by commas.
    pub nvidia: Probe,
    /// `rocm-smi`, asked for names and memory separated by commas.
    pub amd: Probe,
}

/// A step that came to nothing. Where that goes unsaid, a wrong recommendation
/// is hard to explain.
#[derive(Clone, Copy, PartialEq, Eq, Structural, Debug)]
pub enum Note {
    NvidiaFailed,
    AmdFailed,
    NoAccelerator,
    /// The accelerator is not in the bandwidth table.
    NotInTable,
}

pub struct Detected {
    pub hardware: Hardware,
    pub cpu_name: String,
    pub cpu_cores: usize,
    pub gpu_name: Option<String>,
    pub notes: Vec<Note>,
}

// --- what the tools say -----------------------------------------------------

/// The card that a line of a name and megabytes describes.
pub open spec fn card(line: Seq<u8>) -> Option<(Seq<u8>, nat)> {
    let fields = text::pieces(line, 44);
    if fields.len() < 2 {
        None
    } else {
        match text::unsigned(text::trimmed(fields[1]), u32::MAX as nat) {
            Some(mb) => Some((text::trimmed(fields[0]), mb)),
            None => None,
        }
    }
}

/// The cards that lines describe; none of them where a line that is not blank
/// does not describe one.
pub open spec fn cards(lines: Seq<Seq<u8>>) -> Option<Seq<(Seq<u8>, nat)>>
    decreases lines.len(),
{
    if lines.len() == 0 {
        Some(Seq::empty())
    } else {
        let rest = cards(lines.drop_last());
        if text::trimmed(lines.last()).len() == 0 {
            rest
        } else {
            match (rest, card(lines.last())) {
                (Some(cs), Some(c)) => Some(cs.push(c)),
                _ => None,
            }
        }
    }
}

/// The memory of all cards.
pub open spec fn memory_of(cs: Seq<(Seq<u8>, nat)>) -> nat
    decreases cs.len(),
{
    if cs.len() == 0 {
        0
    } else {
        memory_of(cs.drop_last()) + cs.last().1
    }
}

pub open spec fn held32(n: nat) -> nat {
    if n > u32::MAX {
        u32::MAX as nat
    } else {
        n
    }
}

/// The first card of a listing and the memory of all.
pub open spec fn nvidia_spec(output: Seq<u8>) -> Option<(Seq<u8>, nat)> {
    match cards(text::pieces(output, 10)) {
        Some(cs) => if cs.len() > 0 && memory_of(cs) > 0 {
            Some((cs[0].0, held32(memory_of(cs))))
        } else {
            None
        },
        None => None,
    }
}

/// The name in the second field of a line that gives one.
pub open spec fn product(line: Seq<u8>) -> Option<Seq<u8>> {
    let low = text::lowered(line);
    let fields = text::pieces(line, 44);
    if (text::occurs(low, text::bytes("card series")) || text::occurs(
        low,
        text::bytes("product name"),
    )) && fields.len() >= 2 && text::trimmed(fields[1]).len() > 0 {
        Some(text::trimmed(fields[1]))
    } else {
        None
    }
}

/// The name of a listing: the last that is given.
pub open spec fn amd_name(lines: Seq<Seq<u8>>) -> Seq<u8>
    decreases lines.len(),
{
    if lines.len() == 0 {
        text::bytes("AMD GPU")
    } else {
        match product(lines.last()) {
            Some(name) => name,
            None => amd_name(lines.drop_last()),
        }
    }
}

/// The first number among fields, or zero.
pub open spec fn first_number(fields: Seq<Seq<u8>>, from: int) -> nat
    decreases fields.len() - from,
{
    if from < 0 || from >= fields.len() {
        0
    } else {
        match text::unsigned(text::trimmed(fields[from]), u64::MAX as nat) {
            Some(n) => n,
            None => first_number(fields, from + 1),
        }
    }
}

/// The memory that a line gives, in bytes.
pub open spec fn vram_of(line: Seq<u8>) -> nat {
    if text::occurs(text::lowered(line), text::bytes("vram total memory")) {
        first_number(text::pieces(line, 44), 1)
    } else {
        0
    }
}

pub open spec fn vram_total(lines: Seq<Seq<u8>>) -> nat
    decreases lines.len(),
{
    if lines.len() == 0 {
        0
    } else {
        vram_total(lines.drop_last()) + vram_of(lines.last())
    }
}

pub open spec fn held64(n: nat) -> nat {
    if n > u64::MAX {
        u64::MAX as nat
    } else {
        n
    }
}

/// Bytes as a 32-bit number of megabytes.
pub open spec fn megabytes(bytes: nat) -> u32 {
    (bytes / 1_048_576 % 0x1_0000_0000) as u32
}

/// The name of a listing and the memory of all cards in megabytes.
pub open spec fn amd_spec(output: Seq<u8>) -> Option<(Seq<u8>, nat)> {
    let lines = text::pieces(output, 10);
    if vram_total(lines) == 0 {
        None
    } else {
        Some((amd_name(lines), megabytes(held64(vram_total(lines))) as nat))
    }
}

/// A name and an amount, as they were found.
pub open spec fn found(r: Option<(String, u32)>) -> Option<(Seq<u8>, nat)> {
    match r {
        Some(x) => Some((encode_utf8(x.0@), x.1 as nat)),
        None => None,
    }
}

fn read_card<'a>(line: &'a str) -> (r: Option<(&'a str, u32)>)
    ensures
        match r {
            Some(x) => card(text::bytes(line)) == Some((text::bytes(x.0), x.1 as nat)),
            None => card(text::bytes(line)) is None,
        },
{
    let fields: Vec<&'a str> = text::split(line, 44);
    let ghost all: Seq<Seq<u8>> = text::parts(fields@);
    if fields.len() < 2 {
        return None;
    }
    assert(all[0] == text::bytes(fields@[0]) && all[1] == text::bytes(fields@[1]));
    match text::read_u32(text::trim(fields[1]).as_bytes()) {
        Some(mb) => Some((text::trim(fields[0]), mb)),
        None => None,
    }
}

/// Read what `nvidia-smi` wrote: a line of a name and megabytes for each card.
pub fn read_nvidia(output: &str) -> (r: Option<(String, u32)>)
    ensures
        found(r) == nvidia_spec(text::bytes(output)),
{
    let lines: Vec<&str> = text::split(output, 10);
    let ghost all: Seq<Seq<u8>> = text::parts(lines@);
    let mut name: Option<&str> = None;
    let mut total: u32 = 0;
    let ghost mut seen: Seq<(Seq<u8>, nat)> = Seq::empty();
    let mut i: usize = 0;
    assert(all.take(0) =~= Seq::empty());
    while i < lines.len()
        invariant
            i <= lines@.len(),
            all == text::parts(lines@),
            all == text::pieces(text::bytes(output), 10),
            cards(all.take(i as int)) == Some(seen),
            name is Some <==> seen.len() > 0,
            name matches Some(n) ==> text::bytes(n) == seen[0].0,
            total == held32(memory_of(seen)),
        decreases lines.len() - i,
    {
        let line: &str = lines[i];
        assert(all.take(i + 1).drop_last() =~= all.take(i as int));
        assert(all.take(i + 1).last() == text::bytes(line));
        if text::trim(line).as_bytes().len() > 0 {
            match read_card(line) {
                Some((n, mb)) => {
                    proof {
                        let c = (text::bytes(n), mb as nat);
                        assert(seen.push(c).drop_last() =~= seen);
                        seen = seen.push(c);
                    }
                    if name.is_none() {
                        name = Some(n);
                    }
                    total = total.saturating_add(mb);
                },
                None => {
                    proof {
                        lemma_cards_fail(all, i + 1);
                    }
                    return None;
                },
            }
        }
        i = i + 1;
    }
    assert(all.take(i as int) =~= all);
    match name {
        Some(n) => if total > 0 {
            Some((n.to_owned(), total))
        } else {
            None
        },
        None => None,
    }
}

/// What is no listing of cards does not become one by what follows.
proof fn lemma_cards_fail(lines: Seq<Seq<u8>>, n: int)
    requires
        0 <= n <= lines.len(),
        cards(lines.take(n)) is None,
    ensures
        cards(lines) is None,
    decreases lines.len(),
{
    if n < lines.len() {
        assert(lines.drop_last().take(n) =~= lines.take(n));
        lemma_cards_fail(lines.drop_last(), n);
    } else {
        assert(lines.take(n) =~= lines);
    }
}

fn read_product<'a>(line: &'a str) -> (r: Option<&'a str>)
    ensures
        match r {
            Some(name) => product(text::bytes(line)) == Some(text::bytes(name)),
            None => product(text::bytes(line)) is None,
        },
{
    let raw: &[u8] = line.as_bytes();
    if !text::lower_contains(raw, "card series".as_bytes()) && !text::lower_contains(
        raw,
        "product name".as_bytes(),
    ) {
        return None;
    }
    let fields: Vec<&'a str> = text::split(line, 44);
    let ghost all: Seq<Seq<u8>> = text::parts(fields@);
    if fields.len() < 2 {
        return None;
    }
    assert(all[1] == text::bytes(fields@[1]));
    let name: &'a str = text::trim(fields[1]);
    if name.as_bytes().len() > 0 {
        Some(name)
    } else {
        None
    }
}

fn read_vram(line: &str) -> (r: u64)
    ensures
        r == vram_of(text::bytes(line)),
{
    if !text::lower_contains(line.as_bytes(), "vram total memory".as_bytes()) {
        return 0;
    }
    let fields: Vec<&str> = text::split(line, 44);
    let ghost all: Seq<Seq<u8>> = text::parts(fields@);
    let mut i: usize = 1;
    while i < fields.len()
        invariant
            1 <= i <= fields@.len(),
            all == text::parts(fields@),
            vram_of(text::bytes(line)) == first_number(all, 1),
            first_number(all, 1) == first_number(all, i as int),
        decreases fields.len() - i,
    {
        assert(all[i as int] == text::bytes(fields@[i as int]));
        if let Some(n) = text::read_number(text::trim(fields[i]).as_bytes(), u64::MAX) {
            return n;
        }
        i = i + 1;
    }
    0
}

/// Read what `rocm-smi` wrote. Its formats differ between versions, so this
/// reads loosely and gives up rather than guess.
pub fn read_amd(output: &str) -> (r: Option<(String, u32)>)
    ensures
        found(r) == amd_spec(text::bytes(output)),
{
    let lines: Vec<&str> = text::split(output, 10);
    let ghost all: Seq<Seq<u8>> = text::parts(lines@);
    let mut name: &str = "AMD GPU";
    let mut total: u64 = 0;
    let mut i: usize = 0;
    assert(all.take(0) =~= Seq::empty());
    while i < lines.len()
        invariant
            i <= lines@.len(),
            all == text::parts(lines@),
            text::bytes(name) == amd_name(all.take(i as int)),
            total == held64(vram_total(all.take(i as int))),
        decreases lines.len() - i,
    {
        let line: &str = lines[i];
        assert(all.take(i + 1).drop_last() =~= all.take(i as int));
        assert(all.take(i + 1).last() == text::bytes(line));
        if let Some(n) = read_product(line) {
            name = n;
        }
        total = total.saturating_add(read_vram(line));
        i = i + 1;
    }
    assert(all.take(i as int) =~= all);
    if total == 0 {
        return None;
    }
    Some((name.to_owned(), to_megabytes(total)))
}

fn to_megabytes(bytes: u64) -> (r: u32)
    ensures
        r == megabytes(bytes as nat),
{
    (bytes / 1_048_576 % 0x1_0000_0000) as u32
}

// --- the machine ------------------------------------------------------------

/// What a tool says through its reading.
pub open spec fn said_nvidia(p: Probe) -> Option<(Seq<u8>, nat)> {
    match p {
        Probe::Output(s) => nvidia_spec(encode_utf8(s@)),
        _ => None,
    }
}

pub open spec fn said_amd(p: Probe) -> Option<(Seq<u8>, nat)> {
    match p {
        Probe::Output(s) => amd_spec(encode_utf8(s@)),
        _ => None,
    }
}

pub open spec fn cpu_name_spec(f: Facts) -> Seq<u8> {
    match f.cpu_brand {
        Some(s) => text::trimmed(encode_utf8(s@)),
        None => text::bytes("unknown"),
    }
}

/// The accelerator, its memory, its backend and whether the memory is shared:
/// Apple silicon before NVIDIA before AMD. The share of memory that macOS lets
/// be wired is about three quarters.
pub open spec fn accelerator(f: Facts) -> (Option<Seq<u8>>, u32, Backend, bool) {
    if f.macos && f.arm {
        (
            Some(cpu_name_spec(f)),
            Single::nearest(megabytes(f.memory as nat) as nat, 1).mul_spec(
                Single::nearest(3, 4),
            ).whole(u32::MAX as nat) as u32,
            Backend::Metal,
            true,
        )
    } else {
        match (said_nvidia(f.nvidia), said_amd(f.amd)) {
            (Some(card), _) => (Some(card.0), card.1 as u32, Backend::Cuda, false),
            (None, Some(card)) => (Some(card.0), card.1 as u32, Backend::Rocm, false),
            (None, None) => (
                None,
                0,
                if f.arm {
                    Backend::CpuArm
                } else {
                    Backend::CpuX86
                },
                false,
            ),
        }
    }
}

/// The machine that is reported.
pub open spec fn hardware_spec(f: Facts) -> Hardware {
    let ram = megabytes(f.memory as nat);
    let (gpu, vram, backend, unified) = accelerator(f);
    let known = match gpu {
        Some(name) => hardware::gpu_answer(name),
        None => None,
    };
    Hardware {
        ram_mb: ram,
        vram_mb: vram,
        unified,
        backend,
        gpu_bandwidth_gbps: match known {
            Some(k) => k.0,
            None => 0,
        },
        ram_bandwidth_gbps: 0,
        tflops_fp16_x10: match known {
            Some(k) => k.1,
            None => 0,
        },
        os_reserve_mb: if ram > 16_384 {
            4096
        } else {
            2048
        },
        hw_key: match gpu {
            Some(name) => catalog::hw_key_spec(name),
            None => 0,
        },
    }
}

pub open spec fn noted(on: bool, n: Note) -> Seq<Note> {
    if on {
        seq![n]
    } else {
        Seq::empty()
    }
}

/// The steps that came to nothing.
pub open spec fn notes_spec(f: Facts) -> Seq<Note> {
    let asked_nvidia = !(f.macos && f.arm);
    let asked_amd = asked_nvidia && said_nvidia(f.nvidia) is None;
    let gpu = accelerator(f).0;
    noted(asked_nvidia && f.nvidia is Failed, Note::NvidiaFailed) + noted(
        asked_amd && f.amd is Failed,
        Note::AmdFailed,
    ) + noted(gpu is None, Note::NoAccelerator) + noted(
        gpu matches Some(name) && hardware::gpu_answer(name) is None,
        Note::NotInTable,
    )
}

/// Whether AMD's tool is to be asked at all: where there can be such a card and
/// no other was found.
pub fn asks_amd(arm: bool, macos: bool, nvidia: &Probe) -> (r: bool)
    ensures
        r == (!(macos && arm) && said_nvidia(*nvidia) is None),
{
    if macos && arm {
        return false;
    }
    match nvidia {
        Probe::Output(s) => read_nvidia(s.as_str()).is_none(),
        _ => true,
    }
}

/// Make out the machine.
pub fn detect(f: &Facts) -> (r: Detected)
    ensures
        r.hardware == hardware_spec(*f),
        encode_utf8(r.cpu_name@) == cpu_name_spec(*f),
        r.cpu_cores == f.cpu_cores,
        match r.gpu_name {
            Some(name) => accelerator(*f).0 == Some(encode_utf8(name@)),
            None => accelerator(*f).0 is None,
        },
        r.notes@ == notes_spec(*f),
{
    let ram: u32 = to_megabytes(f.memory);
    let cpu: &str = match &f.cpu_brand {
        Some(s) => text::trim(s.as_str()),
        None => "unknown",
    };
    let mut notes: Vec<Note> = Vec::new();
    let (gpu, vram, backend, unified): (Option<String>, u32, Backend, bool) = if f.macos && f.arm {
        (
            Some(cpu.to_owned()),
            Single::from_u32(ram).times(Single::ratio(3, 4)).to_u32(),
            Backend::Metal,
            true,
        )
    } else {
        let nvidia: Option<(String, u32)> = match &f.nvidia {
            Probe::Missing => None,
            Probe::Failed => {
                notes.push(Note::NvidiaFailed);
                None
            },
            Probe::Output(s) => read_nvidia(s.as_str()),
        };
        match nvidia {
            Some((name, mb)) => (Some(name), mb, Backend::Cuda, false),
            None => {
                let amd: Option<(String, u32)> = match &f.amd {
                    Probe::Missing => None,
                    Probe::Failed => {
                        notes.push(Note::AmdFailed);
                        None
                    },
                    Probe::Output(s) => read_amd(s.as_str()),
                };
                match amd {
                    Some((name, mb)) => (Some(name), mb, Backend::Rocm, false),
                    None => {
                        notes.push(Note::NoAccelerator);
                        (
                            None,
                            0,
                            if f.arm {
                                Backend::CpuArm
                            } else {
                                Backend::CpuX86
                            },
                            false,
                        )
                    },
                }
            },
        }
    };
    let (mut bandwidth, mut tflops, mut key): (u16, u16, u32) = (0, 0, 0);
    if let Some(name) = &gpu {
        key = hw_key(name.as_str());
        match lookup_gpu(name.as_str()) {
            Some((b, t)) => {
                bandwidth = b;
                tflops = t;
            },
            None => {
                notes.push(Note::NotInTable);
            },
        }
    }
    assert(notes@ =~= notes_spec(*f));
    Detected {
        hardware: Hardware {
            ram_mb: ram,
            vram_mb: vram,
            unified,
            backend,
            gpu_bandwidth_gbps: bandwidth,
            ram_bandwidth_gbps: 0,
            tflops_fp16_x10: tflops,
            os_reserve_mb: if ram > 16_384 {
                4096
            } else {
                2048
            },
            hw_key: key,
        },
        cpu_name: cpu.to_owned(),
        cpu_cores: f.cpu_cores,
        gpu_name: gpu,
        notes,
    }
}

/// A machine without an accelerator is no error: it is scored as its processor,
/// it is no machine that measurements are known of, and that is said.
pub proof fn law_no_accelerator_is_no_error(f: Facts)
    requires
        accelerator(f).0 is None,
    ensures
        hardware_spec(f).vram_mb == 0,
        hardware_spec(f).backend.cpu(),
        hardware_spec(f).hw_key == 0,
        notes_spec(f).contains(Note::NoAccelerator),
{
    let notes = notes_spec(f);
    assert(notes.last() == Note::NoAccelerator);
}

/// An accelerator is looked up under the name it reports, so that it is the same
/// machine here as in what was submitted of it.
pub proof fn law_accelerators_go_by_their_name(f: Facts)
    ensures
        accelerator(f).0 matches Some(name) ==> {
            &&& hardware_spec(f).hw_key == catalog::hw_key_spec(name)
            &&& hardware_spec(f).hw_key != 0
        },
{
}

} // verus!
