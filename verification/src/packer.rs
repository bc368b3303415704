//! The catalog packer: its arguments, how a catalog is put together, and what is
//! reported of one.

use vstd::prelude::*;
use vstd::utf8::*;

use crate::catalog;
use crate::catalog::flags;
use crate::catalog::{Catalog, CatalogData, Model};
use crate::cli;
use crate::cli::{Arg, CliError};
use crate::community::gather;
use crate::community::gather::{ingest, Factor, Ingested, Sample};
use crate::community::Submission;
use crate::numeral;
use crate::numeral::Numeral;
use crate::pack;
use crate::pack::{pack, select, PackError, PackedMeasurement, SourceModel};
use crate::page::{Draft, Page};
use crate::rounding;
use crate::text;

pub mod arguments;
pub mod lines;

verus! {

/// What the packer is asked for.
pub struct Args {
    pub command: String,
    pub input: Option<String>,
    pub output: Option<String>,
    pub top: Option<usize>,
    pub min_downloads: u64,
    pub include_all_pipelines: bool,
    pub community: Option<String>,
    pub show_unmatched: bool,
    pub path: Option<String>,
}

/// What arguments are.
pub ghost struct ArgsData {
    pub command: Seq<u8>,
    pub input: Option<Seq<u8>>,
    pub output: Option<Seq<u8>>,
    pub top: Option<usize>,
    pub min_downloads: u64,
    pub include_all_pipelines: bool,
    pub community: Option<Seq<u8>>,
    pub show_unmatched: bool,
    pub path: Option<Seq<u8>>,
}

impl View for Args {
    type V = ArgsData;

    open spec fn view(&self) -> ArgsData {
        ArgsData {
            command: encode_utf8(self.command@),
            input: cli::bytes_of(self.input),
            output: cli::bytes_of(self.output),
            top: self.top,
            min_downloads: self.min_downloads,
            include_all_pipelines: self.include_all_pipelines,
            community: cli::bytes_of(self.community),
            show_unmatched: self.show_unmatched,
            path: cli::bytes_of(self.path),
        }
    }
}

// --- arguments --------------------------------------------------------------

/// Whether an argument takes in the one that follows.
pub open spec fn takes_value(flag: Seq<u8>) -> bool {
    ||| flag == text::bytes("--input")
    ||| flag == text::bytes("-i")
    ||| flag == text::bytes("--output")
    ||| flag == text::bytes("-o")
    ||| flag == text::bytes("--community")
    ||| flag == text::bytes("--top")
    ||| flag == text::bytes("--min-downloads")
}

/// What follows an argument, if anything does.
pub open spec fn following(args: Seq<Arg>, i: nat) -> Option<Seq<u8>> {
    if i + 1 < args.len() {
        Some(args[(i + 1) as int].raw())
    } else {
        None
    }
}

/// The arguments after a flag at place `i` with what follows it, if anything.
pub open spec fn with_value(a: ArgsData, flag: Seq<u8>, value: Option<Seq<u8>>, i: usize) -> Result<
    ArgsData,
    CliError,
> {
    if flag == text::bytes("--input") || flag == text::bytes("-i") {
        Ok(ArgsData { input: value, ..a })
    } else if flag == text::bytes("--output") || flag == text::bytes("-o") {
        Ok(ArgsData { output: value, ..a })
    } else if flag == text::bytes("--community") {
        Ok(ArgsData { community: value, ..a })
    } else {
        match value {
            None => Err(CliError::NeedsValue(i)),
            Some(s) => if flag == text::bytes("--top") {
                match text::unsigned(s, usize::MAX as nat) {
                    Some(n) => Ok(ArgsData { top: Some(n as usize), ..a }),
                    None => Err(CliError::NotANumber(i)),
                }
            } else {
                match text::unsigned(s, u64::MAX as nat) {
                    Some(n) => Ok(ArgsData { min_downloads: n as u64, ..a }),
                    None => Err(CliError::NotANumber(i)),
                }
            },
        }
    }
}

/// The arguments after the one at place `i`, which takes nothing in.
pub open spec fn without_value(a: ArgsData, arg: Seq<u8>, i: usize) -> Result<ArgsData, CliError> {
    if arg == text::bytes("--all-pipelines") {
        Ok(ArgsData { include_all_pipelines: true, ..a })
    } else if arg == text::bytes("--show-unmatched") {
        Ok(ArgsData { show_unmatched: true, ..a })
    } else if !(arg.len() > 0 && arg[0] == 45) && a.path is None {
        Ok(ArgsData { path: Some(arg), ..a })
    } else {
        Err(CliError::UnknownFlag(i))
    }
}

/// The arguments from place `i` on.
pub open spec fn read_from(a: ArgsData, args: Seq<Arg>, i: nat) -> Result<ArgsData, CliError>
    decreases args.len() - i,
{
    if i >= args.len() {
        Ok(a)
    } else if takes_value(args[i as int].raw()) {
        match with_value(a, args[i as int].raw(), following(args, i), i as usize) {
            Ok(next) => if i + 2 < args.len() {
                read_from(next, args, i + 2)
            } else {
                Ok(next)
            },
            Err(e) => Err(e),
        }
    } else {
        match without_value(a, args[i as int].raw(), i as usize) {
            Ok(next) => read_from(next, args, i + 1),
            Err(e) => Err(e),
        }
    }
}

/// All of the arguments, the first being the command.
pub open spec fn parsed(args: Seq<Arg>) -> Result<ArgsData, CliError> {
    read_from(
        ArgsData {
            command: if args.len() > 0 {
                args[0].raw()
            } else {
                text::bytes("help")
            },
            input: None,
            output: None,
            top: None,
            min_downloads: 1000,
            include_all_pipelines: false,
            community: None,
            show_unmatched: false,
            path: None,
        },
        args,
        1,
    )
}

fn wants_value(flag: &[u8]) -> (r: bool)
    ensures
        r == takes_value(flag@),
{
    text::is(flag, "--input") || text::is(flag, "-i") || text::is(flag, "--output") || text::is(
        flag,
        "-o",
    ) || text::is(flag, "--community") || text::is(flag, "--top") || text::is(
        flag,
        "--min-downloads",
    )
}

fn owned(s: Option<&str>) -> (r: Option<String>)
    ensures
        cli::bytes_of(r) == match s {
            Some(t) => Some(text::bytes(t)),
            None => None,
        },
{
    match s {
        Some(t) => Some(t.to_owned()),
        None => None,
    }
}

/// Take in a flag with what follows it.
fn take_value(a: &mut Args, flag: &[u8], value: Option<&str>, i: usize) -> (r: Result<
    (),
    CliError,
>)
    requires
        takes_value(flag@),
    ensures
        ({
            let given = match value {
                Some(t) => Some(text::bytes(t)),
                None => None,
            };
            match r {
                Ok(_) => with_value(old(a)@, flag@, given, i) == Ok::<ArgsData, CliError>(
                    final(a)@,
                ),
                Err(e) => with_value(old(a)@, flag@, given, i) == Err::<ArgsData, CliError>(e),
            }
        }),
{
    if text::is(flag, "--input") || text::is(flag, "-i") {
        a.input = owned(value);
    } else if text::is(flag, "--output") || text::is(flag, "-o") {
        a.output = owned(value);
    } else if text::is(flag, "--community") {
        a.community = owned(value);
    } else {
        match value {
            None => {
                return Err(CliError::NeedsValue(i));
            },
            Some(s) => if text::is(flag, "--top") {
                match text::read_number(s.as_bytes(), usize::MAX as u64) {
                    Some(n) => {
                        a.top = Some(n as usize);
                    },
                    None => {
                        return Err(CliError::NotANumber(i));
                    },
                }
            } else {
                match text::read_number(s.as_bytes(), u64::MAX) {
                    Some(n) => {
                        a.min_downloads = n;
                    },
                    None => {
                        return Err(CliError::NotANumber(i));
                    },
                }
            },
        }
    }
    Ok(())
}

/// Read the arguments, the first being the command.
pub fn parse_args(args: &Vec<Arg>) -> (r: Result<Args, CliError>)
    ensures
        match r {
            Ok(a) => parsed(args@) == Ok::<ArgsData, CliError>(a@),
            Err(e) => parsed(args@) == Err::<ArgsData, CliError>(e),
        },
{
    let mut a: Args = Args {
        command: if args.len() > 0 {
            args[0].text.as_str().to_owned()
        } else {
            "help".to_owned()
        },
        input: None,
        output: None,
        top: None,
        min_downloads: 1000,
        include_all_pipelines: false,
        community: None,
        show_unmatched: false,
        path: None,
    };
    let ghost whole: Result<ArgsData, CliError> = read_from(a@, args@, 1);
    let n: usize = args.len();
    let mut i: usize = 1;
    while i < n
        invariant
            1 <= i,
            n == args@.len(),
            whole == parsed(args@),
            whole == read_from(a@, args@, i as nat),
        decreases n - i,
    {
        let arg: &[u8] = args[i].text.as_str().as_bytes();
        if wants_value(arg) {
            let value: Option<&str> = if n - i > 1 {
                Some(args[i + 1].text.as_str())
            } else {
                None
            };
            match take_value(&mut a, arg, value, i) {
                Ok(_) => {},
                Err(e) => {
                    return Err(e);
                },
            }
            if n - i <= 2 {
                return Ok(a);
            }
            i = i + 2;
        } else {
            if text::is(arg, "--all-pipelines") {
                a.include_all_pipelines = true;
            } else if text::is(arg, "--show-unmatched") {
                a.show_unmatched = true;
            } else if !(arg.len() > 0 && arg[0] == 45) && a.path.is_none() {
                a.path = Some(args[i].text.as_str().to_owned());
            } else {
                return Err(CliError::UnknownFlag(i));
            }
            i = i + 1;
        }
    }
    Ok(a)
}

// --- putting a catalog together ---------------------------------------------

/// A catalog, how many models it holds, and what was ingested into it.
pub struct Assembled {
    pub bytes: Vec<u8>,
    pub kept: usize,
    pub ingested: Option<Ingested>,
}

/// The samples that submissions give against a catalog of these models.
pub open spec fn samples_against(models: Seq<&SourceModel>, subs: Seq<Submission>) -> Seq<Sample> {
    gather::samples(
        pack::sections(models, Seq::empty(), Seq::empty()),
        subs,
        subs.len(),
    )
}

/// The measurements that come of submissions.
pub open spec fn measurements_against(
    models: Seq<&SourceModel>,
    subs: Option<Seq<Submission>>,
) -> Seq<PackedMeasurement> {
    match subs {
        Some(s) => choose|ms: Seq<PackedMeasurement>|
            gather::measurements_of(ms, samples_against(models, s)),
        None => Seq::empty(),
    }
}

/// The factors that come of submissions.
pub open spec fn factors_against(
    models: Seq<&SourceModel>,
    subs: Option<Seq<Submission>>,
) -> Seq<Factor> {
    match subs {
        Some(s) => choose|fs: Seq<Factor>| gather::factors_of(fs, samples_against(models, s)),
        None => Seq::empty(),
    }
}

/// Submissions, where there are any.
pub open spec fn given(subs: Option<&Vec<Submission>>) -> Option<Seq<Submission>> {
    match subs {
        Some(v) => Some(v@),
        None => None,
    }
}

/// Choose models, resolve submissions against them, and pack it all. It is
/// packed once without measurements first: names are resolved against a real
/// catalog, and the formula that measurements are held against is the real one.
pub fn assemble(
    models: &Vec<SourceModel>,
    min_downloads: u64,
    all_pipelines: bool,
    top: Option<usize>,
    subs: Option<&Vec<Submission>>,
) -> (r: Result<Assembled, PackError>)
    ensures
        ({
            let kept = pack::selected(models@, min_downloads, all_pipelines, top);
            let ms = measurements_against(kept, given(subs));
            let fs = factors_against(kept, given(subs));
            match r {
                Ok(a) => {
                    &&& pack::packed_len(kept, ms, fs) <= u32::MAX
                    &&& a.bytes@ == pack::packed(kept, ms, fs)
                    &&& a.kept == kept.len()
                    &&& match (subs, a.ingested) {
                        (Some(s), Some(i)) => gather::ingested_from(
                            i,
                            pack::sections(kept, Seq::empty(), Seq::empty()),
                            s@,
                        ),
                        (None, None) => true,
                        _ => false,
                    }
                },
                Err(e) => pack::packed_len(kept, ms, fs) > u32::MAX && e == PackError::TooLarge,
            }
        }),
{
    let kept: Vec<&SourceModel> = select(models, min_downloads, all_pipelines, top);
    let no_measurements: Vec<PackedMeasurement> = Vec::new();
    let no_factors: Vec<(u32, u16, u8)> = Vec::new();
    assert(no_measurements@ =~= Seq::empty());
    assert(no_factors@ =~= Seq::empty());
    let base: Vec<u8> = match pack(
        kept.as_slice(),
        no_measurements.as_slice(),
        no_factors.as_slice(),
    ) {
        Ok(v) => v,
        Err(e) => {
            return Err(e);
        },
    };
    let subs: &Vec<Submission> = match subs {
        Some(s) => s,
        None => {
            return Ok(Assembled { bytes: base, kept: kept.len(), ingested: None });
        },
    };
    proof {
        pack::law_packed_catalogs_parse(kept@, Seq::empty(), Seq::empty());
    }
    let catalog: Catalog<'_> = match Catalog::parse(base.as_slice()) {
        Ok(c) => c,
        Err(_) => {
            return Err(PackError::TooLarge);
        },
    };
    let ingested: Ingested = ingest(&catalog, subs);
    proof {
        let all = samples_against(kept@, subs@);
        gather::law_ingestion_is_determined(
            all,
            ingested.measurements@,
            measurements_against(kept@, Some(subs@)),
            ingested.calibrations@,
            factors_against(kept@, Some(subs@)),
        );
    }
    match pack(
        kept.as_slice(),
        ingested.measurements.as_slice(),
        ingested.calibrations.as_slice(),
    ) {
        Ok(bytes) => Ok(Assembled { bytes, kept: kept.len(), ingested: Some(ingested) }),
        Err(e) => Err(e),
    }
}

/// A catalog that was put together reads back with as many models as were kept.
pub proof fn law_assembled_catalogs_parse(
    models: Seq<SourceModel>,
    min_downloads: u64,
    all_pipelines: bool,
    top: Option<usize>,
    subs: Option<Seq<Submission>>,
)
    requires
        ({
            let kept = pack::selected(models, min_downloads, all_pipelines, top);
            pack::packed_len(
                kept,
                measurements_against(kept, subs),
                factors_against(kept, subs),
            ) <= u32::MAX
        }),
    ensures
        ({
            let kept = pack::selected(models, min_downloads, all_pipelines, top);
            catalog::parse_spec(
                pack::packed(
                    kept,
                    measurements_against(kept, subs),
                    factors_against(kept, subs),
                ),
            ) matches Ok(c) && c.count == kept.len()
        }),
{
    let kept = pack::selected(models, min_downloads, all_pipelines, top);
    pack::law_packed_catalogs_parse(
        kept,
        measurements_against(kept, subs),
        factors_against(kept, subs),
    );
}

// --- reports ----------------------------------------------------------------

/// A fraction to one decimal place, ties to even.
pub open spec fn fraction(d: Draft, n: nat, by: nat) -> Draft {
    let tenths = rounding::half_even(10 * n, by);
    d.decimal(tenths / 10).say(".").decimal(tenths % 10)
}

/// How many bytes there are to a model.
pub open spec fn per_model(len: nat, kept: nat) -> nat {
    len / if kept > 0 {
        kept
    } else {
        1
    }
}

/// What is reported of a catalog that was built.
#[verifier::opaque]
pub open spec fn built_spec(
    kept: nat,
    total: nat,
    output: Seq<u8>,
    len: nat,
    source: nat,
) -> Draft {
    let d = Draft::empty().say("packed ").decimal(kept).say(" of ").decimal(total).say(
        " models into ",
    ).put(output).say("\n  ").decimal(len).say(" bytes (");
    let d = fraction(d, len, 1024).say(" KB), ").decimal(per_model(len, kept)).say(
        " bytes/model\n  source JSON was ",
    );
    fraction(d, source, 1_048_576).say(" MB\n")
}

/// What is reported of what was ingested.
#[verifier::opaque]
pub open spec fn ingested_spec(d: Draft, i: Ingested) -> Draft {
    d.say("  ").decimal(i.measurements@.len()).say(" measurements from ").decimal(
        i.files as nat,
    ).say(" submissions — ").decimal(i.matched as nat).say(" of ").decimal(i.results as nat).say(
        " results matched a catalog model\n  ",
    ).decimal(i.machines as nat).say(" machines seen, ").decimal(i.calibrations@.len()).say(
        " with enough samples for a calibration factor\n",
    )
}

/// The report of a catalog that was put together.
pub open spec fn build_report_spec(
    a: Assembled,
    total: nat,
    output: Seq<u8>,
    source: nat,
) -> Draft {
    let d = built_spec(a.kept as nat, total, output, a.bytes@.len(), source);
    match a.ingested {
        Some(i) => ingested_spec(d, i),
        None => d,
    }
}

/// The first `n` lines of a tally.
pub open spec fn tally_lines(d: Draft, us: Seq<(String, usize)>, n: nat) -> Draft
    decreases n,
{
    if n == 0 {
        d
    } else {
        tally_lines(d, us, (n - 1) as nat).say("  ").right(
            numeral::decimal(us[n - 1].1 as nat),
            3,
        ).say("  ").put(encode_utf8(us[n - 1].0@)).say("\n")
    }
}

/// The names that matched no model, the forty most frequent of them.
pub open spec fn unmatched_spec(us: Seq<(String, usize)>) -> Draft {
    tally_lines(
        Draft::empty().say("\nbenchmark names that matched no catalog model:\n"),
        us,
        if us.len() < 40 {
            us.len()
        } else {
            40
        },
    )
}

/// How many of the first `n` models of a catalog carry a flag.
pub open spec fn flagged(c: CatalogData, flag: u16, n: nat) -> nat
    decreases n,
{
    if n == 0 {
        0
    } else {
        flagged(c, flag, (n - 1) as nat) + if c.model((n - 1) as nat).has_flag(flag) {
            1nat
        } else {
            0nat
        }
    }
}

/// What is reported of a catalog as a whole.
#[verifier::opaque]
pub open spec fn overview(path: Seq<u8>, c: CatalogData, len: nat) -> Draft {
    let whole = flagged(c, flags::ARCH_METADATA, c.count);
    Draft::empty().put(path).say(": ").decimal(c.count).say(" models, ").decimal(len).say(
        " bytes\n  ",
    ).decimal(c.measurement_total()).say(" real measurements, ").decimal(
        c.calibration_total(),
    ).say(" machines with a calibration factor\n  ").decimal(
        flagged(c, flags::MOE, c.count),
    ).say(" sparse, ").decimal(whole).say(" with full architecture metadata (").decimal(
        per_model(whole * 100, c.count),
    ).say("%)\n\n  first 10 entries:\n")
}

/// The first `n` entries of a catalog.
pub open spec fn entries(d: Draft, c: CatalogData, n: nat) -> Draft
    decreases n,
{
    if n == 0 {
        d
    } else {
        let m = c.model((n - 1) as nat);
        entries(d, c, (n - 1) as nat).say("    ").left(m.name(), 44).say(" ").right(
            numeral::decimal(m.params_m() as nat),
            7,
        ).say("M params  ").right(numeral::decimal(m.context_length() as nat), 7).say(
            " ctx  ",
        ).say(m.use_case().name_spec()).say("\n")
    }
}

/// The report of a catalog that is looked at.
pub open spec fn inspect_spec(path: Seq<u8>, c: CatalogData, len: nat) -> Draft {
    entries(
        overview(path, c, len),
        c,
        if c.count < 10 {
            c.count
        } else {
            10
        },
    )
}

fn put_fraction(page: &mut Page, n: usize, by: u32)
    requires
        by > 0,
    ensures
        final(page)@ == fraction(old(page)@, n as nat, by as nat),
{
    let ten: u128 = n as u128 * 10;
    let by: u128 = by as u128;
    let q: u128 = ten / by;
    let rest: u128 = ten % by;
    let near: u128 = if 2 * rest > by || (2 * rest == by && q % 2 == 1) {
        q + 1
    } else {
        q
    };
    assert(near == rounding::half_even(10 * n as nat, by as nat));
    page.decimal(near / 10);
    page.say(".");
    page.decimal(near % 10);
}

/// Report a catalog that was put together: `total` entries were offered, in a
/// source of `source` bytes.
pub fn build_report(a: &Assembled, total: usize, output: &str, source: usize) -> (r: Page)
    ensures
        r@ == build_report_spec(*a, total as nat, text::bytes(output), source as nat),
{
    proof {
        reveal(built_spec);
        reveal(ingested_spec);
    }
    let mut page: Page = Page::new();
    page.say("packed ");
    page.decimal(a.kept as u128);
    page.say(" of ");
    page.decimal(total as u128);
    page.say(" models into ");
    page.say(output);
    page.say("\n  ");
    page.decimal(a.bytes.len() as u128);
    page.say(" bytes (");
    put_fraction(&mut page, a.bytes.len(), 1024);
    page.say(" KB), ");
    let divisor: usize = if a.kept > 0 {
        a.kept
    } else {
        1
    };
    page.decimal((a.bytes.len() / divisor) as u128);
    page.say(" bytes/model\n  source JSON was ");
    put_fraction(&mut page, source, 1_048_576);
    page.say(" MB\n");
    if let Some(i) = &a.ingested {
        page.say("  ");
        page.decimal(i.measurements.len() as u128);
        page.say(" measurements from ");
        page.decimal(i.files as u128);
        page.say(" submissions — ");
        page.decimal(i.matched as u128);
        page.say(" of ");
        page.decimal(i.results as u128);
        page.say(" results matched a catalog model\n  ");
        page.decimal(i.machines as u128);
        page.say(" machines seen, ");
        page.decimal(i.calibrations.len() as u128);
        page.say(" with enough samples for a calibration factor\n");
    }
    page
}

/// List the names that matched no model.
pub fn unmatched_report(us: &Vec<(String, usize)>) -> (r: Page)
    ensures
        r@ == unmatched_spec(us@),
{
    let mut page: Page = Page::new();
    page.say("\nbenchmark names that matched no catalog model:\n");
    let ghost start: Draft = page@;
    let n: usize = if us.len() < 40 {
        us.len()
    } else {
        40
    };
    let mut i: usize = 0;
    while i < n
        invariant
            i <= n <= us@.len(),
            page@ == tally_lines(start, us@, i as nat),
        decreases n - i,
    {
        page.say("  ");
        page.right(Numeral::of(us[i].1 as u128).as_bytes(), 3);
        page.say("  ");
        page.say(us[i].0.as_str());
        page.say("\n");
        i = i + 1;
    }
    page
}

fn put_entry(page: &mut Page, m: &Model<'_>)
    ensures
        final(page)@ == old(page)@.say("    ").left(m@.name(), 44).say(" ").right(
            numeral::decimal(m@.params_m() as nat),
            7,
        ).say("M params  ").right(numeral::decimal(m@.context_length() as nat), 7).say(
            " ctx  ",
        ).say(m@.use_case().name_spec()).say("\n"),
{
    page.say("    ");
    page.left(m.name(), 44);
    page.say(" ");
    page.right(Numeral::of(m.params_m() as u128).as_bytes(), 7);
    page.say("M params  ");
    page.right(Numeral::of(m.context_length() as u128).as_bytes(), 7);
    page.say(" ctx  ");
    page.say(m.use_case().name());
    page.say("\n");
}

/// Report a catalog that is looked at, of `len` bytes.
pub fn inspect(path: &str, catalog: &Catalog<'_>, len: usize) -> (r: Page)
    ensures
        r@ == inspect_spec(text::bytes(path), catalog@, len as nat),
{
    let ghost c: CatalogData = catalog@;
    let n: usize = catalog.len();
    let mut sparse: usize = 0;
    let mut whole: usize = 0;
    let mut i: usize = 0;
    while i < n
        invariant
            i <= n,
            n == c.count,
            c == catalog@,
            sparse <= i,
            whole <= i,
            sparse == flagged(c, flags::MOE, i as nat),
            whole == flagged(c, flags::ARCH_METADATA, i as nat),
        decreases n - i,
    {
        if let Some(m) = catalog.get(i) {
            if m.is_moe() {
                sparse = sparse + 1;
            }
            if m.has_arch_metadata() {
                whole = whole + 1;
            }
        }
        i = i + 1;
    }
    let mut page: Page = Page::new();
    page.say(path);
    page.say(": ");
    page.decimal(n as u128);
    page.say(" models, ");
    page.decimal(len as u128);
    page.say(" bytes\n  ");
    page.decimal(catalog.measurement_count() as u128);
    page.say(" real measurements, ");
    page.decimal(catalog.calibration_count() as u128);
    page.say(" machines with a calibration factor\n  ");
    page.decimal(sparse as u128);
    page.say(" sparse, ");
    page.decimal(whole as u128);
    page.say(" with full architecture metadata (");
    let divisor: u128 = if n > 0 {
        n as u128
    } else {
        1
    };
    page.decimal(whole as u128 * 100 / divisor);
    page.say("%)\n\n  first 10 entries:\n");
    let ghost start: Draft = page@;
    assert(start == overview(text::bytes(path), c, len as nat)) by {
        reveal(overview);
    }
    let shown: usize = if n < 10 {
        n
    } else {
        10
    };
    let mut i: usize = 0;
    while i < shown
        invariant
            i <= shown <= n,
            n == c.count,
            c == catalog@,
            page@ == entries(start, c, i as nat),
        decreases shown - i,
    {
        if let Some(m) = catalog.get(i) {
            put_entry(&mut page, &m);
        }
        i = i + 1;
    }
    page
}

} // verus!
