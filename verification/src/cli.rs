//! What the command line asks for, and what is written for it.

use vstd::prelude::*;
use vstd::string::StringExecFns;
use crate::ignore::Ignore;
use crate::model::{Scan, SummaryError, build, sort_tree, summary_text};
use crate::summary::SummaryItem;

verus! {

/// The name of the ignore file that is honoured where none is given.
pub const IGNORE_FILE: &'static str = ".gmsignore";

/// The arguments of a run that generates a summary.
#[derive(Debug)]
pub struct GenArgs {
    /// The directory whose summary is wanted.
    pub dir: String,
    /// The file to write to; standard output where there is none.
    pub output: Option<String>,
    /// Whether the chapters are put in order.
    pub sort: bool,
    /// The name of the ignore file honoured in every directory.
    pub ignore: String,
}

/// The summary text of a scan, sorted or not, or the failure of its build.
pub open spec fn generated(scan: Scan, allowed: Set<Seq<char>>, sort: bool) -> Result<
    Seq<char>,
    SummaryError,
> {
    match build(scan, allowed) {
        Err(e) => Err(e),
        Ok(entry) => Ok(
            summary_text(
                if sort {
                    sort_tree(entry)
                } else {
                    entry
                },
            ),
        ),
    }
}

/// Generates the summary of a scanned directory: builds its entry, puts the
/// chapters in order where the arguments ask for it, and writes it out.
pub fn handle_gen(gen_args: &GenArgs, scan: &Scan, ignore: &Ignore) -> (r: Result<
    String,
    SummaryError,
>)
    ensures
        match r {
            Ok(text) => generated(*scan, ignore@, gen_args.sort) == Ok::<Seq<char>, SummaryError>(
                text@,
            ),
            Err(e) => generated(*scan, ignore@, gen_args.sort) == Err::<Seq<char>, SummaryError>(e),
        },
{
    match SummaryItem::new(scan, ignore) {
        Err(e) => Err(e),
        Ok(summary) => {
            let mut summary = summary;
            if gen_args.sort {
                summary.sort();
            }
            Ok(summary.gen_summary())
        },
    }
}

/// The rules that a new ignore file starts with: the files of the book
/// itself, its output, and documents that are no text.
pub fn handle_init() -> (r: String)
    ensures
        r@ == "book.toml\n.gitignore\nbook\n*.doc\n*.pdf\n*.png\n*.xlsx\n*.pptx\n*.jpg\n"@,
{
    String::from_str("book.toml\n.gitignore\nbook\n*.doc\n*.pdf\n*.png\n*.xlsx\n*.pptx\n*.jpg\n")
}

} // verus!
