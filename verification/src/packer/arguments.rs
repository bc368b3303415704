//! What every argument of the packer does.

use vstd::prelude::*;

use crate::cli::{Arg, CliError};
use crate::packer;
use crate::packer::ArgsData;
use crate::text;

verus! {

/// What is in force before any argument: a thousand downloads at least, only what
/// generates text, as many models as there are; and help where nothing is asked.
pub proof fn law_the_packer_starts_with(args: Seq<Arg>)
    requires
        args.len() <= 1,
    ensures
        packer::parsed(args) matches Ok(a) && {
            &&& args.len() == 0 ==> a.command == text::bytes("help")
            &&& args.len() == 1 ==> a.command == args[0].raw()
            &&& a.min_downloads == 1000
            &&& a.top is None && !a.include_all_pipelines && !a.show_unmatched
            &&& a.input is None && a.output is None && a.community is None && a.path is None
        },
{
}

/// What tells the flags apart.
proof fn lemma_flags()
    ensures
        text::bytes("--input")[2] == 105 && text::bytes("--input")[1] == 45,
        text::bytes("-i")[1] == 105,
        text::bytes("--output")[2] == 111 && text::bytes("--output")[1] == 45,
        text::bytes("-o")[1] == 111,
        text::bytes("--community")[2] == 99 && text::bytes("--community")[1] == 45,
        text::bytes("--top")[2] == 116 && text::bytes("--top")[1] == 45,
        text::bytes("--min-downloads")[2] == 109 && text::bytes("--min-downloads")[1] == 45,
        text::bytes("--all-pipelines")[2] == 97 && text::bytes("--all-pipelines")[1] == 45,
        text::bytes("--show-unmatched")[2] == 115 && text::bytes("--show-unmatched")[1] == 45,
        text::bytes("--input")[0] == 45 && text::bytes("-i")[0] == 45,
        text::bytes("--output")[0] == 45 && text::bytes("-o")[0] == 45,
        text::bytes("--community")[0] == 45 && text::bytes("--top")[0] == 45,
        text::bytes("--min-downloads")[0] == 45 && text::bytes("--all-pipelines")[0] == 45,
        text::bytes("--show-unmatched")[0] == 45,
        text::bytes("--input").len() > 0 && text::bytes("-i").len() > 0,
        text::bytes("--output").len() > 0 && text::bytes("-o").len() > 0,
        text::bytes("--community").len() > 0 && text::bytes("--top").len() > 0,
        text::bytes("--min-downloads").len() > 0 && text::bytes("--all-pipelines").len() > 0,
        text::bytes("--show-unmatched").len() > 0,
{
    reveal_strlit("--input");
    reveal_strlit("-i");
    reveal_strlit("--output");
    reveal_strlit("-o");
    reveal_strlit("--community");
    reveal_strlit("--top");
    reveal_strlit("--min-downloads");
    reveal_strlit("--all-pipelines");
    reveal_strlit("--show-unmatched");
    text::lemma_ascii("--input");
    text::lemma_ascii("-i");
    text::lemma_ascii("--output");
    text::lemma_ascii("-o");
    text::lemma_ascii("--community");
    text::lemma_ascii("--top");
    text::lemma_ascii("--min-downloads");
    text::lemma_ascii("--all-pipelines");
    text::lemma_ascii("--show-unmatched");
}

/// A flag of the packer sets what it names to what stands behind it, and nothing
/// else; the two that switch something on take nothing.
pub proof fn law_flags_of_the_packer(a: ArgsData, args: Seq<Arg>, i: nat)
    requires
        i + 2 < args.len() <= usize::MAX,
    ensures
        ({
            let is = |w: &str| args[i as int].raw() == text::bytes(w);
            let value = args[(i + 1) as int].raw();
            let r = packer::read_from(a, args, i);
            let behind = |b: ArgsData| r == packer::read_from(b, args, i + 2);
            let refused = r == Err::<ArgsData, CliError>(CliError::NotANumber(i as usize));
            &&& is("--input") || is("-i") ==> behind(ArgsData { input: Some(value), ..a })
            &&& is("--output") || is("-o") ==> behind(ArgsData { output: Some(value), ..a })
            &&& is("--community") ==> behind(ArgsData { community: Some(value), ..a })
            &&& is("--top") ==> match text::unsigned(value, usize::MAX as nat) {
                Some(n) => behind(ArgsData { top: Some(n as usize), ..a }),
                None => refused,
            }
            &&& is("--min-downloads") ==> match text::unsigned(value, u64::MAX as nat) {
                Some(n) => behind(ArgsData { min_downloads: n as u64, ..a }),
                None => refused,
            }
            &&& is("--all-pipelines") ==> r == packer::read_from(
                ArgsData { include_all_pipelines: true, ..a },
                args,
                i + 1,
            )
            &&& is("--show-unmatched") ==> r == packer::read_from(
                ArgsData { show_unmatched: true, ..a },
                args,
                i + 1,
            )
        }),
{
    lemma_flags();
}

/// One argument that is no flag is the path; a second one, or a flag that is not
/// known, is refused at its place, and so is a number that is missing.
pub proof fn law_what_is_no_flag(a: ArgsData, args: Seq<Arg>, i: nat)
    requires
        i < args.len() <= usize::MAX,
    ensures
        ({
            let arg = args[i as int].raw();
            let is = |w: &str| arg == text::bytes(w);
            let known = is("--input") || is("-i") || is("--output") || is("-o") || is(
                "--community",
            ) || is("--top") || is("--min-downloads") || is("--all-pipelines") || is(
                "--show-unmatched",
            );
            let r = packer::read_from(a, args, i);
            &&& arg.len() == 0 || arg[0] != 45 ==> if a.path is None {
                r == packer::read_from(ArgsData { path: Some(arg), ..a }, args, i + 1)
            } else {
                r == Err::<ArgsData, CliError>(CliError::UnknownFlag(i as usize))
            }
            &&& arg.len() > 0 && arg[0] == 45 && !known ==> r == Err::<ArgsData, CliError>(
                CliError::UnknownFlag(i as usize),
            )
            &&& i + 1 == args.len() && (is("--top") || is("--min-downloads")) ==> r == Err::<
                ArgsData,
                CliError,
            >(CliError::NeedsValue(i as usize))
        }),
{
    lemma_flags();
}

} // verus!
