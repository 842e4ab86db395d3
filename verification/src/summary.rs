//! The entries of a summary: how one is built from a scan, put in order and
//! written out.

use vstd::prelude::*;
use vstd::string::StrSliceExecFns;
use vstd::string::StringExecFns;
use crate::ignore::Ignore;
use crate::laws::{
    law_built_is_well_formed, law_sort_keeps_well_formed, lemma_failure_stays,
};
use crate::model::{
    EntryView, Member, Readmes, Scan, SummaryError, build, build_members, chapters_text, indent,
    introduction_of, item_name, item_text, lemma_insert_at, link, listed, member_path, serves,
    sort_from, sort_tree, summary_text, target, well_formed,
};
use crate::text::{chars_of, ends_with, find_last, name_le, precedes_or_equals, trim_bounds};

verus! {

/// One file or directory of the summary.
#[derive(Debug)]
pub struct SummaryItem {
    name: String,
    path: String,
    is_dir: bool,
    introduction: Option<String>,
    chapters: Vec<SummaryItem>,
}

impl View for SummaryItem {
    type V = EntryView;

    closed spec fn view(&self) -> EntryView {
        view_of(*self)
    }
}

/// The entry that an item stands for.
pub closed spec fn view_of(item: SummaryItem) -> EntryView
    decreases item, 0nat,
{
    EntryView {
        name: item.name@,
        path: item.path@,
        is_dir: item.is_dir,
        introduction: match item.introduction {
            Some(p) => Some(p@),
            None => None,
        },
        children: views_of(item.chapters, item.chapters.len() as nat),
    }
}

/// The entries that the first `n` of the items stand for.
pub closed spec fn views_of(items: Vec<SummaryItem>, n: nat) -> Seq<EntryView>
    decreases items, n,
{
    if n == 0 || n > items.len() {
        Seq::empty()
    } else {
        views_of(items, (n - 1) as nat).push(view_of(items[n - 1]))
    }
}

/// The views of the first `n` items are the views of each, in order.
proof fn lemma_views_of(items: Vec<SummaryItem>, n: nat)
    requires
        n <= items.len(),
    ensures
        views_of(items, n).len() == n,
        forall|i: int| 0 <= i < n ==> views_of(items, n)[i] == (#[trigger] items[i])@,
    decreases n,
{
    if n > 0 {
        lemma_views_of(items, (n - 1) as nat);
    }
}

impl SummaryItem {
    /// Derives the name shown for a path. `is_dir` says whether the path is a
    /// directory, whose name keeps its dots.
    pub fn item_name_from_path_str(path_name: &str, is_dir: bool) -> (r: Result<String, SummaryError>)
        ensures
            match r {
                Ok(name) => item_name(path_name@, is_dir) == Some(name@),
                Err(e) => e == SummaryError::Name && item_name(path_name@, is_dir) is None,
            },
    {
        let v = chars_of(path_name);
        let n = v.len();
        let start: usize = match find_last(&v, 0, n, '/') {
            Some(i) => i + 1,
            None => 0,
        };
        assert(v@.subrange(0, n as int) =~= v@);
        let (lo, hi) = trim_bounds(&v, start, n);
        if lo == hi {
            return Err(SummaryError::Name);
        }
        let end: usize = if is_dir {
            hi
        } else {
            match find_last(&v, lo, hi, '.') {
                Some(k) => k,
                None => lo,
            }
        };
        assert(v@.subrange(lo as int, lo as int) =~= Seq::<char>::empty());
        Ok(String::from_str(path_name.substring_char(lo, end)))
    }
    /// The path of the member `name` of the directory `dir`, where that member
    /// exists and is not ignored.
    fn candidate(dir: &str, name: &str, exists: bool, ignore: &Ignore) -> (r: Option<String>)
        ensures
            match r {
                Some(p) => serves(dir@, name@, exists, ignore@) && p@ == member_path(dir@, name@),
                None => !serves(dir@, name@, exists, ignore@),
            },
    {
        if !exists {
            return None;
        }
        proof {
            reveal_strlit("/");
            assert("/"@ =~= seq!['/']);
        }
        let path = String::from_str(dir).concat("/").concat(name);
        if ignore.is_ignore(path.as_str()) {
            None
        } else {
            Some(path)
        }
    }

    /// Picks the introduction of a directory: the first of the four
    /// introduction files that exists and is not ignored.
    pub fn choose_introduction(dir: &str, readmes: &Readmes, ignore: &Ignore) -> (r: Option<String>)
        ensures
            match r {
                Some(p) => introduction_of(dir@, *readmes, ignore@) == Some(p@),
                None => introduction_of(dir@, *readmes, ignore@) is None,
            },
    {
        if let Some(p) = Self::candidate(dir, "README.md", readmes.upper_md, ignore) {
            return Some(p);
        }
        if let Some(p) = Self::candidate(dir, "readme.md", readmes.lower_md, ignore) {
            return Some(p);
        }
        if let Some(p) = Self::candidate(dir, "README", readmes.upper, ignore) {
            return Some(p);
        }
        Self::candidate(dir, "readme", readmes.lower, ignore)
    }

    /// Whether the member of a directory with this path becomes a chapter: it
    /// is not ignored, and it is no `readme.md` or `README.md`.
    pub fn is_chapter(path: &str, ignore: &Ignore) -> (r: bool)
        ensures
            r == listed(path@, ignore@),
    {
        if ignore.is_ignore(path) {
            return false;
        }
        let v = chars_of(path);
        let lower = chars_of("readme.md");
        let upper = chars_of("README.md");
        !ends_with(&v, &lower) && !ends_with(&v, &upper)
    }

    /// Builds the entry of a scanned path. A file becomes a leaf whatever the
    /// ignore rules say of it. A directory gets its introduction and, in the
    /// order of the listing, one chapter for each member that is a chapter;
    /// the first failure among them fails the whole, and so does a listing
    /// that broke off.
    pub fn new(scan: &Scan, ignore: &Ignore) -> (r: Result<SummaryItem, SummaryError>)
        ensures
            match r {
                Ok(item) => build(*scan, ignore@) == Ok::<EntryView, SummaryError>(item@)
                    && well_formed(item@),
                Err(e) => build(*scan, ignore@) == Err::<EntryView, SummaryError>(e),
            },
        decreases scan,
    {
        match scan {
            Scan::Unresolved => Err(SummaryError::NotFound),
            Scan::File { path } => {
                match Self::item_name_from_path_str(path.as_str(), false) {
                    Err(e) => Err(e),
                    Ok(name) => {
                        let item = SummaryItem {
                            name,
                            path: path.clone(),
                            is_dir: false,
                            introduction: None,
                            chapters: Vec::new(),
                        };
                        proof {
                            item.lemma_view();
                        }
                        assert(item@.children =~= Seq::<EntryView>::empty());
                        proof {
                            law_built_is_well_formed(*scan, ignore@);
                        }
                        Ok(item)
                    },
                }
            },
            Scan::Other { path } => {
                match Self::item_name_from_path_str(path.as_str(), false) {
                    Err(e) => Err(e),
                    Ok(_) => Err(SummaryError::InvalidKind),
                }
            },
            Scan::Directory { path, readmes, members, complete } => {
                let name = match Self::item_name_from_path_str(path.as_str(), true) {
                    Err(e) => {
                        return Err(e);
                    },
                    Ok(name) => name,
                };
                let introduction = Self::choose_introduction(path.as_str(), readmes, ignore);
                let mut chapters: Vec<SummaryItem> = Vec::new();
                let ghost mut built: Seq<EntryView> = Seq::empty();
                let mut k: usize = 0;
                while k < members.len()
                    invariant
                        k <= members.len(),
                        *scan matches Scan::Directory { path: p, members: ms, .. } && ms
                            == *members && item_name(p@, true) is Some,
                        build_members(*members, k as nat, ignore@) == Ok::<
                            Seq<EntryView>,
                            SummaryError,
                        >(built),
                        built.len() == chapters.len(),
                        forall|i: int| 0 <= i < built.len() ==> (#[trigger] built[i]) == chapters[i]@,
                    decreases members.len() - k,
                {
                    let member = &members[k];
                    if Self::is_chapter(member.path.as_str(), ignore) {
                        match Self::new(&member.scan, ignore) {
                            Err(e) => {
                                assert(build_members(*members, (k + 1) as nat, ignore@) == Err::<
                                    Seq<EntryView>,
                                    SummaryError,
                                >(e));
                                proof {
                                    lemma_failure_stays(*members, (k + 1) as nat, ignore@);
                                }
                                return Err(e);
                            },
                            Ok(child) => {
                                proof {
                                    built = built.push(child@);
                                }
                                chapters.push(child);
                            },
                        }
                    }
                    k = k + 1;
                }
                if !*complete {
                    return Err(SummaryError::Io);
                }
                let item = SummaryItem { name, path: path.clone(), is_dir: true, introduction, chapters };
                proof {
                    item.lemma_view();
                }
                assert(item@.children =~= built);
                proof {
                    law_built_is_well_formed(*scan, ignore@);
                }
                Ok(item)
            },
        }
    }

    /// The view of an entry, field by field.
    proof fn lemma_view(&self)
        ensures
            self@.name == self.name@,
            self@.path == self.path@,
            self@.is_dir == self.is_dir,
            self@.introduction == match self.introduction {
                Some(p) => Some(p@),
                None => None,
            },
            self@.children.len() == self.chapters.len(),
            forall|i: int|
                0 <= i < self.chapters.len() ==> (#[trigger] self@.children[i]) == self.chapters[i]@,
    {
        lemma_views_of(self.chapters, self.chapters.len() as nat);
    }

    /// Appends the lines of this entry to `out`, with `tabs` before its own
    /// line and one tab more before each level below.
    fn write_item(&self, tabs: &str, out: &mut String)
        requires
            tabs@ == indent(tabs@.len()),
        ensures
            final(out)@ == old(out)@ + item_text(self@, tabs@.len()),
        decreases self,
    {
        let ghost base = out@;
        let ghost depth = tabs@.len();
        out.append(tabs);
        out.append("- [");
        out.append(self.name.as_str());
        out.append("](");
        if self.is_dir {
            if let Some(p) = &self.introduction {
                out.append(p.as_str());
            }
        } else {
            out.append(self.path.as_str());
        }
        out.append(")");
        let ghost head = base + indent(depth) + link(self@.name, target(self@));
        assert(out@ =~= head);
        if self.is_dir {
            let deeper = String::from_str(tabs).concat("\t");
            proof {
                reveal_strlit("\t");
                reveal_strlit("\n");
                assert(deeper@ =~= indent(depth + 1));
            }
            let mut k: usize = 0;
            while k < self.chapters.len()
                invariant
                    k <= self.chapters.len(),
                    deeper@ == indent(depth + 1),
                    deeper@.len() == depth + 1,
                    "\n"@ == seq!['\n'],
                    out@ == head + chapters_text(self@.children, k as nat, depth + 1),
                decreases self.chapters.len() - k,
            {
                let ghost before = out@;
                out.append("\n");
                self.chapters[k].write_item(deeper.as_str(), out);
                proof {
                    self.lemma_view();
                }
                assert(out@ =~= head + chapters_text(self@.children, (k + 1) as nat, depth + 1));
                k = k + 1;
            }
            proof {
                self.lemma_view();
            }
            assert(out@ =~= base + item_text(self@, depth));
        } else {
            assert(out@ =~= base + item_text(self@, depth));
        }
    }

    /// The lines of this entry and of all below it, with `depth` tabs before
    /// its own line.
    pub fn item(&self, depth: usize) -> (r: String)
        ensures
            r@ == item_text(self@, depth as nat),
    {
        let mut tabs = String::new();
        let mut k: usize = 0;
        proof {
            reveal_strlit("\t");
            assert(tabs@ =~= indent(0));
        }
        while k < depth
            invariant
                k <= depth,
                "\t"@ == seq!['\t'],
                tabs@ == indent(k as nat),
            decreases depth - k,
        {
            tabs.append("\t");
            k = k + 1;
            assert(tabs@ =~= indent(k as nat));
        }
        let mut out = String::new();
        self.write_item(tabs.as_str(), &mut out);
        assert(out@ =~= item_text(self@, depth as nat));
        out
    }

    /// The summary of this entry: the heading, then every chapter of a
    /// directory with all below it, or the single line of a file.
    pub fn gen_summary(&self) -> (r: String)
        ensures
            r@ == summary_text(self@),
    {
        let mut out = String::from_str("# Summary\n\n");
        let ghost head = out@;
        if self.is_dir {
            proof {
                reveal_strlit("\n");
                assert(""@ =~= indent(0)) by {
                    reveal_strlit("");
                }
            }
            let mut k: usize = 0;
            while k < self.chapters.len()
                invariant
                    k <= self.chapters.len(),
                    "\n"@ == seq!['\n'],
                    ""@ == indent(0),
                    out@ == head + chapters_text(self@.children, k as nat, 0),
                decreases self.chapters.len() - k,
            {
                out.append("\n");
                self.chapters[k].write_item("", &mut out);
                proof {
                    self.lemma_view();
                }
                assert(out@ =~= head + chapters_text(self@.children, (k + 1) as nat, 0));
                k = k + 1;
            }
            proof {
                self.lemma_view();
            }
        } else {
            out.append("- [");
            out.append(self.name.as_str());
            out.append("](");
            out.append(self.path.as_str());
            out.append(")");
            assert(out@ =~= head + link(self@.name, self@.path));
        }
        out
    }

    /// The first place in `sorted` whose entry has a name that does not come
    /// before `name`; the length of `sorted` where there is none.
    fn position(sorted: &Vec<SummaryItem>, name: &Vec<char>) -> (pos: usize)
        ensures
            pos <= sorted.len(),
            forall|j: int| 0 <= j < pos ==> !name_le(name@, (#[trigger] sorted[j])@.name),
            pos < sorted.len() ==> name_le(name@, sorted[pos as int]@.name),
    {
        let mut pos: usize = 0;
        while pos < sorted.len()
            invariant
                pos <= sorted.len(),
                forall|j: int| 0 <= j < pos ==> !name_le(name@, (#[trigger] sorted[j])@.name),
            decreases sorted.len() - pos,
        {
            let other = chars_of(sorted[pos].name.as_str());
            proof {
                sorted[pos as int].lemma_view();
            }
            if precedes_or_equals(name, &other) {
                return pos;
            }
            pos = pos + 1;
        }
        pos
    }

    /// Puts the chapters of every directory in this entry in ascending order
    /// of their names, code point by code point. Chapters of one name keep
    /// their order.
    pub fn sort(&mut self)
        ensures
            final(self)@ == sort_tree(old(self)@),
            well_formed(old(self)@) ==> well_formed(final(self)@),
        decreases *old(self),
    {
        let ghost start = *self;
        let ghost orig_entry = self@;
        let ghost orig = self@.children;
        proof {
            self.lemma_view();
        }
        let mut sorted: Vec<SummaryItem> = Vec::new();
        let ghost mut done: Seq<EntryView> = Seq::empty();
        while self.chapters.len() > 0
            invariant
                start == *old(self),
                orig == start@.children,
                orig.len() == start.chapters.len(),
                forall|i: int| 0 <= i < orig.len() ==> (#[trigger] orig[i]) == start.chapters[i]@,
                self.name == start.name,
                self.path == start.path,
                self.is_dir == start.is_dir,
                self.introduction == start.introduction,
                self.chapters.len() <= start.chapters.len(),
                self.chapters@ == start.chapters@.subrange(0, self.chapters.len() as int),
                done == sort_from(orig, self.chapters.len() as nat),
                done.len() == sorted.len(),
                forall|i: int| 0 <= i < done.len() ==> (#[trigger] done[i]) == sorted[i]@,
            decreases self.chapters.len(),
        {
            let ghost k = self.chapters.len() - 1;
            let mut child = self.chapters.pop().unwrap();
            assert(child == start.chapters[k]);
            proof {
                vstd::std_specs::vec::axiom_vec_index_decreases(start.chapters, k);
            }
            child.sort();
            let name = chars_of(child.name.as_str());
            let pos = Self::position(&sorted, &name);
            proof {
                child.lemma_view();
                assert forall|j: int| 0 <= j < pos implies !name_le(
                    child@.name,
                    (#[trigger] done[j]).name,
                ) by {
                    assert(done[j] == sorted[j]@);
                }
                lemma_insert_at(child@, done, pos as int);
                done = done.insert(pos as int, child@);
            }
            sorted.insert(pos, child);
            assert(self.chapters@ =~= start.chapters@.subrange(0, self.chapters.len() as int));
        }
        self.chapters = sorted;
        proof {
            self.lemma_view();
            assert(self@.children =~= done);
            if well_formed(orig_entry) {
                law_sort_keeps_well_formed(orig_entry);
            }
        }
    }

    /// The name shown for this entry.
    pub fn name(&self) -> (r: &str)
        ensures
            r@ == self@.name,
    {
        self.name.as_str()
    }

    /// The canonical path of this entry.
    pub fn path(&self) -> (r: &str)
        ensures
            r@ == self@.path,
    {
        self.path.as_str()
    }

    /// Whether this entry is a directory.
    pub fn is_dir(&self) -> (r: bool)
        ensures
            r == self@.is_dir,
    {
        self.is_dir
    }

    /// The path of the introduction of this entry, if it has one.
    pub fn introduction(&self) -> (r: Option<&str>)
        ensures
            match r {
                Some(p) => self@.introduction == Some(p@),
                None => self@.introduction is None,
            },
    {
        match &self.introduction {
            Some(p) => Some(p.as_str()),
            None => None,
        }
    }

    /// The chapters of this entry, in their order.
    pub fn chapters(&self) -> (r: &Vec<SummaryItem>)
        ensures
            r.len() == self@.children.len(),
            forall|i: int| 0 <= i < r.len() ==> (#[trigger] r[i])@ == self@.children[i],
    {
        proof {
            self.lemma_view();
        }
        &self.chapters
    }
}

} // verus!
