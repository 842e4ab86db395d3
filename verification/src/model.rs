//! The data that the library works on, and what it computes from them, stated
//! over sequences of characters.

use vstd::prelude::*;
use crate::text::{after_last, before_last, name_le, trim};

verus! {

/// The ways in which building a summary fails.
#[derive(Debug, Clone, Copy, PartialEq, Eq, Structural)]
pub enum SummaryError {
    /// The path does not exist or has no canonical form.
    NotFound,
    /// The path is neither a regular file nor a directory.
    InvalidKind,
    /// A directory, or a path met on a walk, could not be read.
    Io,
    /// The path has no final component to take a name from.
    Name,
}

/// Which of the four introduction files exist in a directory.
#[derive(Debug, Clone, Copy)]
pub struct Readmes {
    /// `README.md` exists.
    pub upper_md: bool,
    /// `readme.md` exists.
    pub lower_md: bool,
    /// `README` exists.
    pub upper: bool,
    /// `readme` exists.
    pub lower: bool,
}

/// One immediate member of a directory: its path as the directory lists it,
/// and what was found there.
#[derive(Debug)]
pub struct Member {
    pub path: String,
    pub scan: Scan,
}

/// What the file system holds at a path.
#[derive(Debug)]
pub enum Scan {
    /// Nothing is known: the path does not exist, has no canonical form, or
    /// was not looked at.
    Unresolved,
    /// A regular file, with its canonical path.
    File { path: String },
    /// Something that is neither a regular file nor a directory.
    Other { path: String },
    /// A directory, with its canonical path, the introduction files that
    /// exist in it, and its members in the order in which they were listed.
    /// `complete` says whether the listing came to its end: where reading the
    /// directory failed, `members` holds those listed before the failure.
    Directory { path: String, readmes: Readmes, members: Vec<Member>, complete: bool },
}

/// An entry of the summary as a mathematical value.
pub struct EntryView {
    pub name: Seq<char>,
    pub path: Seq<char>,
    pub is_dir: bool,
    pub introduction: Option<Seq<char>>,
    pub children: Seq<EntryView>,
}

/// The name shown for a path: its final component without surrounding white
/// space, and for anything but a directory without its last extension. A path
/// whose final component is empty has no name.
pub open spec fn item_name(path: Seq<char>, is_dir: bool) -> Option<Seq<char>> {
    let component = trim(after_last(path, '/'));
    if component.len() == 0 {
        None
    } else if is_dir {
        Some(component)
    } else {
        Some(before_last(component, '.'))
    }
}

/// The path of the member `name` of the directory `dir`.
pub open spec fn member_path(dir: Seq<char>, name: Seq<char>) -> Seq<char> {
    dir + seq!['/'] + name
}

/// Whether `name` can serve as introduction of `dir`: it exists and is not
/// ignored.
pub open spec fn serves(dir: Seq<char>, name: Seq<char>, exists: bool, allowed: Set<Seq<char>>) -> bool {
    exists && allowed.contains(member_path(dir, name))
}

/// The introduction of the directory `dir`: the first of `README.md`,
/// `readme.md`, `README` and `readme` that exists and is not ignored.
pub open spec fn introduction_of(dir: Seq<char>, readmes: Readmes, allowed: Set<Seq<char>>) -> Option<
    Seq<char>,
> {
    if serves(dir, "README.md"@, readmes.upper_md, allowed) {
        Some(member_path(dir, "README.md"@))
    } else if serves(dir, "readme.md"@, readmes.lower_md, allowed) {
        Some(member_path(dir, "readme.md"@))
    } else if serves(dir, "README"@, readmes.upper, allowed) {
        Some(member_path(dir, "README"@))
    } else if serves(dir, "readme"@, readmes.lower, allowed) {
        Some(member_path(dir, "readme"@))
    } else {
        None
    }
}

/// The canonical path that a scan found, if it found any.
pub open spec fn resolved_path(scan: Scan) -> Option<Seq<char>> {
    match scan {
        Scan::Unresolved => None,
        Scan::File { path } => Some(path@),
        Scan::Other { path } => Some(path@),
        Scan::Directory { path, .. } => Some(path@),
    }
}

/// Whether a member with this path becomes a chapter: it is not ignored and
/// its path ends neither in `readme.md` nor in `README.md`.
pub open spec fn listed(path: Seq<char>, allowed: Set<Seq<char>>) -> bool {
    &&& allowed.contains(path)
    &&& !"readme.md"@.is_suffix_of(path)
    &&& !"README.md"@.is_suffix_of(path)
}

/// The entry built from a scan, or the first failure met on the way: a
/// directory fails with the failure of its first listed member that fails,
/// and where every one of them is built, with that of its listing.
pub open spec fn build(scan: Scan, allowed: Set<Seq<char>>) -> Result<EntryView, SummaryError>
    decreases scan, 0nat,
{
    match scan {
        Scan::Unresolved => Err(SummaryError::NotFound),
        Scan::File { path } => match item_name(path@, false) {
            None => Err(SummaryError::Name),
            Some(name) => Ok(
                EntryView {
                    name,
                    path: path@,
                    is_dir: false,
                    introduction: None,
                    children: Seq::empty(),
                },
            ),
        },
        Scan::Other { path } => match item_name(path@, false) {
            None => Err(SummaryError::Name),
            Some(_) => Err(SummaryError::InvalidKind),
        },
        Scan::Directory { path, readmes, members, complete } => match item_name(path@, true) {
            None => Err(SummaryError::Name),
            Some(name) => match build_members(members, members.len() as nat, allowed) {
                Err(e) => Err(e),
                Ok(children) => if complete {
                    Ok(
                        EntryView {
                            name,
                            path: path@,
                            is_dir: true,
                            introduction: introduction_of(path@, readmes, allowed),
                            children,
                        },
                    )
                } else {
                    Err(SummaryError::Io)
                },
            },
        },
    }
}

/// The chapters built from the first `n` members of a directory, in their
/// order, or the first failure among them. Members that are not listed are
/// passed over, whatever was found there.
pub open spec fn build_members(ms: Vec<Member>, n: nat, allowed: Set<Seq<char>>) -> Result<
    Seq<EntryView>,
    SummaryError,
>
    decreases ms, n,
{
    if n == 0 || n > ms.len() {
        Ok(Seq::empty())
    } else {
        match build_members(ms, (n - 1) as nat, allowed) {
            Err(e) => Err(e),
            Ok(before) => if listed(ms[n - 1].path@, allowed) {
                match build(ms[n - 1].scan, allowed) {
                    Err(e) => Err(e),
                    Ok(child) => Ok(before.push(child)),
                }
            } else {
                Ok(before)
            },
        }
    }
}

/// `e` put into `sorted` before the first entry whose name does not come
/// before the name of `e`.
pub open spec fn insert_by_name(e: EntryView, sorted: Seq<EntryView>) -> Seq<EntryView>
    decreases sorted.len(),
{
    if sorted.len() == 0 || name_le(e.name, sorted[0].name) {
        seq![e] + sorted
    } else {
        seq![sorted[0]] + insert_by_name(e, sorted.drop_first())
    }
}

/// The entry with the chapters of every directory in it put in ascending order
/// of their names; chapters of one name keep their order.
pub open spec fn sort_tree(e: EntryView) -> EntryView
    decreases e, 0nat,
{
    EntryView {
        name: e.name,
        path: e.path,
        is_dir: e.is_dir,
        introduction: e.introduction,
        children: sort_from(e.children, 0),
    }
}

/// The chapters of `cs` from the one at `k` on, each sorted within and all of
/// them put in ascending order of their names.
pub open spec fn sort_from(cs: Seq<EntryView>, k: nat) -> Seq<EntryView>
    decreases cs, cs.len() - k,
{
    if k >= cs.len() {
        Seq::empty()
    } else {
        insert_by_name(sort_tree(cs[k as int]), sort_from(cs, k + 1))
    }
}

/// Whether each entry of `cs` but the last is followed by one whose name does
/// not come before its own.
pub open spec fn ordered(cs: Seq<EntryView>) -> bool {
    forall|i: int| 0 <= i && i + 1 < cs.len() ==> name_le(#[trigger] cs[i].name, cs[i + 1].name)
}

/// Whether the chapters of every directory in `e` are in ascending order of
/// their names.
pub open spec fn is_sorted(e: EntryView) -> bool
    decreases e,
{
    &&& ordered(e.children)
    &&& forall|i: int| 0 <= i < e.children.len() ==> is_sorted(#[trigger] e.children[i])
}

/// One tab for each level of depth.
pub open spec fn indent(depth: nat) -> Seq<char> {
    Seq::new(depth, |i: int| '\t')
}

/// A list item that shows `name` and links to `target`.
pub open spec fn link(name: Seq<char>, target: Seq<char>) -> Seq<char> {
    "- ["@ + name + "]("@ + target + ")"@
}

/// What the line of an entry links to: a file's own path, a directory's
/// introduction, or nothing for a directory without one.
pub open spec fn target(e: EntryView) -> Seq<char> {
    if e.is_dir {
        match e.introduction {
            Some(p) => p,
            None => Seq::empty(),
        }
    } else {
        e.path
    }
}

/// The lines of an entry at the given depth: its own, then those of its
/// chapters one level deeper, each behind a line break.
pub open spec fn item_text(e: EntryView, depth: nat) -> Seq<char>
    decreases e, 0nat,
{
    indent(depth) + link(e.name, target(e)) + if e.is_dir {
        chapters_text(e.children, e.children.len(), depth + 1)
    } else {
        Seq::empty()
    }
}

/// The lines of the first `n` chapters of `cs` at the given depth, each
/// behind a line break.
pub open spec fn chapters_text(cs: Seq<EntryView>, n: nat, depth: nat) -> Seq<char>
    decreases cs, n,
{
    if n == 0 || n > cs.len() {
        Seq::empty()
    } else {
        chapters_text(cs, (n - 1) as nat, depth) + seq!['\n'] + item_text(cs[n - 1], depth)
    }
}

/// The whole summary of an entry: the heading, then the chapters of a
/// directory from depth 0 on, or the single line of a file.
pub open spec fn summary_text(e: EntryView) -> Seq<char> {
    "# Summary\n\n"@ + if e.is_dir {
        chapters_text(e.children, e.children.len(), 0)
    } else {
        link(e.name, e.path)
    }
}

/// Whether an entry is well formed: a file has neither introduction nor
/// chapters, and every chapter is well formed.
pub open spec fn well_formed(e: EntryView) -> bool
    decreases e,
{
    &&& !e.is_dir ==> e.introduction is None && e.children.len() == 0
    &&& forall|i: int| 0 <= i < e.children.len() ==> well_formed(#[trigger] e.children[i])
}

/// Inserting by name puts an entry at the first place where its name does not
/// come behind that of the entry there.
pub proof fn lemma_insert_at(e: EntryView, sorted: Seq<EntryView>, pos: int)
    requires
        0 <= pos <= sorted.len(),
        forall|j: int| 0 <= j < pos ==> !name_le(e.name, (#[trigger] sorted[j]).name),
        pos < sorted.len() ==> name_le(e.name, sorted[pos].name),
    ensures
        insert_by_name(e, sorted) == sorted.insert(pos, e),
    decreases pos,
{
    if pos == 0 {
        assert(seq![e] + sorted =~= sorted.insert(0, e));
    } else {
        let rest = sorted.drop_first();
        assert forall|j: int| 0 <= j < pos - 1 implies !name_le(
            e.name,
            (#[trigger] rest[j]).name,
        ) by {
            assert(rest[j] == sorted[j + 1]);
        }
        lemma_insert_at(e, rest, pos - 1);
        assert(seq![sorted[0]] + rest.insert(pos - 1, e) =~= sorted.insert(pos, e));
    }
}

} // verus!
