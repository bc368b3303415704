//! What the packer reports of a catalog.

use vstd::prelude::*;
use vstd::utf8::*;

use crate::catalog::flags;
use crate::catalog::CatalogData;
use crate::cli::lines;
use crate::community::gather::Ingested;
use crate::numeral;
use crate::packer;
use crate::page::Draft;

verus! {

/// What is reported of a catalog that was built: how many models were kept of how
/// many, where to, how long it is, and how many bytes that is to a model.
pub proof fn law_what_is_told_of_a_build(
    kept: nat,
    total: nat,
    output: Seq<u8>,
    len: nat,
    source: nat,
)
    ensures
        ({
            let page = packer::built_spec(kept, total, output, len, source);
            let number = |word: &str, n: nat| lines::tells(page, word, numeral::decimal(n));
            &&& number("packed ", kept)
            &&& number(" of ", total)
            &&& lines::tells(page, " models into ", output)
            &&& number("\n  ", len)
            &&& number(
                " KB), ",
                if kept > 0 {
                    len / kept
                } else {
                    len
                },
            )
        }),
{
    lines::lemma_put();
    reveal(packer::built_spec);
}

/// What is reported of what was ingested: measurements, submissions, results that
/// matched of all there were, machines, and those with a factor.
pub proof fn law_what_is_told_of_submissions(d: Draft, i: Ingested)
    ensures
        ({
            let page = packer::ingested_spec(d, i);
            let number = |word: &str, n: nat| lines::tells(page, word, numeral::decimal(n));
            &&& number("  ", i.measurements@.len())
            &&& number(" measurements from ", i.files as nat)
            &&& number(" submissions — ", i.matched as nat)
            &&& number(" of ", i.results as nat)
            &&& number(" results matched a catalog model\n  ", i.machines as nat)
            &&& number(" machines seen, ", i.calibrations@.len())
        }),
{
    lines::lemma_put();
    reveal(packer::ingested_spec);
}

/// What is reported of a catalog that is looked at: its models, its bytes, its
/// measurements and calibrations, how many of its models are sparse, and how many
/// carry their architecture, which is also told in percent.
pub proof fn law_what_is_told_of_a_catalog(path: Seq<u8>, c: CatalogData, len: nat)
    ensures
        ({
            let page = packer::overview(path, c, len);
            let number = |word: &str, n: nat| lines::tells(page, word, numeral::decimal(n));
            let whole = packer::flagged(c, flags::ARCH_METADATA, c.count);
            &&& number(": ", c.count)
            &&& number(" models, ", len)
            &&& number(" bytes\n  ", c.measurements.len() / 16)
            &&& number(" real measurements, ", c.calibrations.len() / 8)
            &&& number(
                " machines with a calibration factor\n  ",
                packer::flagged(c, flags::MOE, c.count),
            )
            &&& number(" sparse, ", whole)
            &&& c.count > 0 ==> number(
                " with full architecture metadata (",
                whole * 100 / c.count,
            )
        }),
{
    lines::lemma_put();
    reveal(packer::overview);
}

/// How many models carry a flag: each that does counts once.
pub proof fn law_models_are_counted_by_their_flags(c: CatalogData, flag: u16, n: nat)
    ensures
        packer::flagged(c, flag, 0) == 0,
        c.model(n).flags() & flag != 0 ==> packer::flagged(c, flag, n + 1) == packer::flagged(
            c,
            flag,
            n,
        ) + 1,
        c.model(n).flags() & flag == 0 ==> packer::flagged(c, flag, n + 1) == packer::flagged(
            c,
            flag,
            n,
        ),
{
}

/// One line for each of the first ten models: its name, its parameters, its window
/// and what it is for.
pub proof fn law_what_is_told_of_an_entry(d: Draft, c: CatalogData, n: nat)
    ensures
        ({
            let (m, page) = (c.model(n), packer::entries(d, c, n + 1));
            let then = |what: Seq<u8>, next: &str|
                lines::stands(page, what + encode_utf8(next@));
            &&& then(numeral::decimal(m.params_m() as nat), "M params  ")
            &&& then(numeral::decimal(m.context_length() as nat), " ctx  ")
            &&& then(encode_utf8(m.use_case().name_spec()@), "\n")
        }),
{
    lines::lemma_put();
}

} // verus!
