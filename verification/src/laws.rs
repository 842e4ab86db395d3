//! What holds of names, of built entries and of sorting, for all inputs.

use vstd::prelude::*;
use crate::model::{
    EntryView, Member, Scan, SummaryError, build, build_members, insert_by_name, is_sorted,
    item_name, listed, ordered, resolved_path, sort_from, sort_tree, well_formed,
};
use crate::text::{
    after_last, lemma_name_le_reflexive, lemma_name_le_total, lemma_split_at_last,
    lemma_split_without, lemma_trim_end, lemma_trim_start, name_le, trim, white_space,
};

verus! {

/// Whether `s` holds the character `c` nowhere.
pub open spec fn free_of(s: Seq<char>, c: char) -> bool {
    forall|j: int| 0 <= j < s.len() ==> s[j] != c
}

/// Whether `s` is not empty and neither begins nor ends with white space.
pub open spec fn tight(s: Seq<char>) -> bool {
    s.len() > 0 && !white_space(s[0]) && !white_space(s.last())
}

/// Whether `prefix` can stand before a final component: it is empty or ends
/// with a separator.
pub open spec fn leads(prefix: Seq<char>) -> bool {
    prefix.len() == 0 || prefix.last() == '/'
}

/// The final component of a path is what follows its last separator.
pub proof fn lemma_final_component(prefix: Seq<char>, component: Seq<char>)
    requires
        leads(prefix),
        free_of(component, '/'),
    ensures
        after_last(prefix + component, '/') == component,
{
    let p = prefix + component;
    if prefix.len() == 0 {
        assert(p =~= component);
        lemma_split_without(component, '/');
    } else {
        lemma_split_at_last(p, '/', prefix.len() - 1);
        assert(p.subrange(prefix.len() as int, p.len() as int) =~= component);
    }
}

/// A component without white space at its ends is left as it is by trimming.
pub proof fn lemma_trim_tight(s: Seq<char>)
    requires
        tight(s),
    ensures
        trim(s) == s,
{
    lemma_trim_start(s, 0);
    assert(s.subrange(0, s.len() as int) =~= s);
    lemma_trim_end(s, s.len() as int);
}

/// The name of a file is its final component without its one last extension:
/// the dots within the stem stay.
pub proof fn law_file_name(prefix: Seq<char>, stem: Seq<char>, extension: Seq<char>)
    requires
        leads(prefix),
        free_of(stem, '/'),
        free_of(extension, '/'),
        free_of(extension, '.'),
        tight(stem + seq!['.'] + extension),
    ensures
        item_name(prefix + (stem + seq!['.'] + extension), false) == Some(stem),
{
    let component = stem + seq!['.'] + extension;
    lemma_final_component(prefix, component);
    lemma_trim_tight(component);
    lemma_split_at_last(component, '.', stem.len() as int);
    assert(component.subrange(0, stem.len() as int) =~= stem);
}

/// The name of a directory is its final component as it stands, dots
/// included.
pub proof fn law_directory_name(prefix: Seq<char>, component: Seq<char>)
    requires
        leads(prefix),
        free_of(component, '/'),
        tight(component),
    ensures
        item_name(prefix + component, true) == Some(component),
{
    lemma_final_component(prefix, component);
    lemma_trim_tight(component);
}

/// Every chapter built from the first `n` members of a directory stems from
/// one of them that is listed.
pub proof fn lemma_chapter_origin(ms: Vec<Member>, n: nat, allowed: Set<Seq<char>>, i: int) -> (j:
    int)
    requires
        n <= ms.len(),
        build_members(ms, n, allowed) is Ok,
        0 <= i < build_members(ms, n, allowed)->Ok_0.len(),
    ensures
        0 <= j < n,
        listed(ms[j].path@, allowed),
        build(ms[j].scan, allowed) == Ok::<EntryView, SummaryError>(
            build_members(ms, n, allowed)->Ok_0[i],
        ),
    decreases n,
{
    let before = build_members(ms, (n - 1) as nat, allowed)->Ok_0;
    if i < before.len() {
        lemma_chapter_origin(ms, (n - 1) as nat, allowed, i)
    } else {
        n - 1
    }
}

/// A built entry has the path that its scan resolved to.
pub proof fn lemma_built_path(scan: Scan, allowed: Set<Seq<char>>)
    requires
        build(scan, allowed) is Ok,
    ensures
        resolved_path(scan) == Some(build(scan, allowed)->Ok_0.path),
{
}

/// The introduction of a directory is none of its chapters: where it is a
/// `README.md` or `readme.md` and every member of the directory resolved to
/// the path under which it is listed, no chapter has the introduction's path.
pub proof fn law_introduction_is_no_chapter(scan: Scan, allowed: Set<Seq<char>>, i: int)
    requires
        build(scan, allowed) is Ok,
        build(scan, allowed)->Ok_0.introduction is Some,
        "README.md"@.is_suffix_of(build(scan, allowed)->Ok_0.introduction->0)
            || "readme.md"@.is_suffix_of(build(scan, allowed)->Ok_0.introduction->0),
        scan matches Scan::Directory { members: ms, .. } ==> forall|j: int|
            0 <= j < ms.len() ==> #[trigger] resolved_path(ms[j].scan) == Some(ms[j].path@),
        0 <= i < build(scan, allowed)->Ok_0.children.len(),
    ensures
        build(scan, allowed)->Ok_0.children[i].path != build(scan, allowed)->Ok_0.introduction->0,
{
    match scan {
        Scan::Directory { path, readmes, members: ms, complete } => {
            let j = lemma_chapter_origin(ms, ms.len() as nat, allowed, i);
            lemma_built_path(ms[j].scan, allowed);
            assert(resolved_path(ms[j].scan) == Some(ms[j].path@));
        },
        _ => {},
    }
}

/// A failure among the first `n` members of a directory is the failure of
/// all of them.
pub proof fn lemma_failure_stays(ms: Vec<Member>, n: nat, allowed: Set<Seq<char>>)
    requires
        n <= ms.len(),
        build_members(ms, n, allowed) is Err,
    ensures
        build_members(ms, ms.len() as nat, allowed) == build_members(ms, n, allowed),
    decreases ms.len() - n,
{
    if n < ms.len() {
        assert(build_members(ms, n + 1, allowed) == build_members(ms, n, allowed));
        lemma_failure_stays(ms, n + 1, allowed);
    }
}

/// A failure below fails the whole: where a listed member of a directory
/// cannot be built, neither can the directory.
pub proof fn law_failure_fails_directory(scan: Scan, allowed: Set<Seq<char>>, j: int)
    requires
        scan matches Scan::Directory { members: ms, .. } && 0 <= j < ms.len() && listed(
            ms[j].path@,
            allowed,
        ) && build(ms[j].scan, allowed) is Err,
    ensures
        build(scan, allowed) is Err,
{
    match scan {
        Scan::Directory { path, readmes, members: ms, complete } => {
            assert(build_members(ms, (j + 1) as nat, allowed) is Err);
            lemma_failure_stays(ms, (j + 1) as nat, allowed);
        },
        _ => {},
    }
}

/// The scan found by going down from `scan` along `route`, which gives at
/// each directory the place of a listed member in its listing; `None` where
/// the route leaves the listed members.
pub open spec fn descend(scan: Scan, route: Seq<int>, allowed: Set<Seq<char>>) -> Option<Scan>
    decreases route.len(),
{
    if route.len() == 0 {
        Some(scan)
    } else {
        match scan {
            Scan::Directory { members, .. } => if 0 <= route[0] < members.len() && listed(
                members[route[0]].path@,
                allowed,
            ) {
                descend(members[route[0]].scan, route.drop_first(), allowed)
            } else {
                None
            },
            _ => None,
        }
    }
}

/// A failure anywhere below fails every directory above it: where a scan
/// that is reached along listed members cannot be built, neither can the scan
/// from which the route set out.
pub proof fn law_failure_fails_every_ancestor(
    scan: Scan,
    route: Seq<int>,
    allowed: Set<Seq<char>>,
)
    requires
        descend(scan, route, allowed) is Some,
        build(descend(scan, route, allowed)->0, allowed) is Err,
    ensures
        build(scan, allowed) is Err,
    decreases route.len(),
{
    if route.len() > 0 {
        match scan {
            Scan::Directory { path, readmes, members, complete } => {
                law_failure_fails_every_ancestor(
                    members[route[0]].scan,
                    route.drop_first(),
                    allowed,
                );
                law_failure_fails_directory(scan, allowed, route[0]);
            },
            _ => {},
        }
    }
}

/// What is built is well formed: only directories have an introduction or
/// chapters.
pub proof fn law_built_is_well_formed(scan: Scan, allowed: Set<Seq<char>>)
    requires
        build(scan, allowed) is Ok,
    ensures
        well_formed(build(scan, allowed)->Ok_0),
    decreases scan, 0nat,
{
    match scan {
        Scan::Directory { path, readmes, members: ms, complete } => {
            lemma_members_well_formed(ms, ms.len() as nat, allowed);
        },
        _ => {},
    }
}

/// The chapters built from the first `n` members are well formed.
pub proof fn lemma_members_well_formed(ms: Vec<Member>, n: nat, allowed: Set<Seq<char>>)
    requires
        n <= ms.len(),
        build_members(ms, n, allowed) is Ok,
    ensures
        forall|i: int|
            0 <= i < build_members(ms, n, allowed)->Ok_0.len() ==> well_formed(
                #[trigger] build_members(ms, n, allowed)->Ok_0[i],
            ),
    decreases ms, n,
{
    if n > 0 {
        lemma_members_well_formed(ms, (n - 1) as nat, allowed);
        if listed(ms[n - 1].path@, allowed) {
            law_built_is_well_formed(ms[n - 1].scan, allowed);
        }
    }
}

/// Inserting a sorted entry by name into ordered, sorted chapters leaves them
/// ordered and sorted, with one entry more; the first of them is the new
/// entry or the one that was first.
pub proof fn lemma_insert_keeps_order(e: EntryView, sorted: Seq<EntryView>)
    requires
        ordered(sorted),
        is_sorted(e),
        forall|i: int| 0 <= i < sorted.len() ==> is_sorted(#[trigger] sorted[i]),
    ensures
        ordered(insert_by_name(e, sorted)),
        insert_by_name(e, sorted).len() == sorted.len() + 1,
        insert_by_name(e, sorted)[0] == e || (sorted.len() > 0 && insert_by_name(e, sorted)[0]
            == sorted[0]),
        forall|i: int|
            0 <= i < insert_by_name(e, sorted).len() ==> is_sorted(
                #[trigger] insert_by_name(e, sorted)[i],
            ),
    decreases sorted.len(),
{
    let r = insert_by_name(e, sorted);
    if sorted.len() == 0 || name_le(e.name, sorted[0].name) {
        assert forall|i: int| 0 <= i && i + 1 < r.len() implies name_le(
            #[trigger] r[i].name,
            r[i + 1].name,
        ) by {
            if i > 0 {
                assert(r[i] == sorted[i - 1]);
                assert(r[i + 1] == sorted[i]);
            }
        }
        assert forall|i: int| 0 <= i < r.len() implies is_sorted(#[trigger] r[i]) by {
            if i > 0 {
                assert(r[i] == sorted[i - 1]);
            }
        }
    } else {
        let rest = sorted.drop_first();
        let inner = insert_by_name(e, rest);
        assert forall|i: int| 0 <= i && i + 1 < rest.len() implies name_le(
            #[trigger] rest[i].name,
            rest[i + 1].name,
        ) by {
            assert(rest[i] == sorted[i + 1]);
            assert(rest[i + 1] == sorted[i + 2]);
        }
        assert forall|i: int| 0 <= i < rest.len() implies is_sorted(#[trigger] rest[i]) by {
            assert(rest[i] == sorted[i + 1]);
        }
        lemma_insert_keeps_order(e, rest);
        lemma_name_le_total(e.name, sorted[0].name);
        assert(name_le(sorted[0].name, inner[0].name)) by {
            if inner[0] != e {
                assert(rest[0] == sorted[1]);
            }
        }
        assert forall|i: int| 0 <= i && i + 1 < r.len() implies name_le(
            #[trigger] r[i].name,
            r[i + 1].name,
        ) by {
            if i > 0 {
                assert(r[i] == inner[i - 1]);
                assert(r[i + 1] == inner[i]);
            } else {
                assert(r[1] == inner[0]);
            }
        }
        assert forall|i: int| 0 <= i < r.len() implies is_sorted(#[trigger] r[i]) by {
            if i > 0 {
                assert(r[i] == inner[i - 1]);
            }
        }
    }
}

/// Sorting leaves the chapters of every directory in ascending order of
/// their names.
pub proof fn law_sort_sorts(e: EntryView)
    ensures
        is_sorted(sort_tree(e)),
    decreases e, 0nat,
{
    lemma_sort_from_sorts(e.children, 0);
}

/// The chapters sorted from `k` on are ordered, and each is sorted within.
pub proof fn lemma_sort_from_sorts(cs: Seq<EntryView>, k: nat)
    ensures
        ordered(sort_from(cs, k)),
        forall|i: int| 0 <= i < sort_from(cs, k).len() ==> is_sorted(#[trigger] sort_from(cs, k)[i]),
    decreases cs, cs.len() - k,
{
    if k < cs.len() {
        law_sort_sorts(cs[k as int]);
        lemma_sort_from_sorts(cs, k + 1);
        lemma_insert_keeps_order(sort_tree(cs[k as int]), sort_from(cs, k + 1));
    }
}

/// Sorting changes nothing in an entry whose chapters are in order
/// everywhere.
pub proof fn law_sorted_stays(e: EntryView)
    requires
        is_sorted(e),
    ensures
        sort_tree(e) == e,
    decreases e, 0nat,
{
    lemma_sort_from_stays(e.children, 0);
    assert(e.children.subrange(0, e.children.len() as int) =~= e.children);
}

/// Sorting ordered chapters that are sorted within gives them back.
pub proof fn lemma_sort_from_stays(cs: Seq<EntryView>, k: nat)
    requires
        ordered(cs),
        forall|i: int| 0 <= i < cs.len() ==> is_sorted(#[trigger] cs[i]),
        k <= cs.len(),
    ensures
        sort_from(cs, k) == cs.subrange(k as int, cs.len() as int),
    decreases cs, cs.len() - k,
{
    if k < cs.len() {
        law_sorted_stays(cs[k as int]);
        lemma_sort_from_stays(cs, k + 1);
        let rest = cs.subrange(k as int + 1, cs.len() as int);
        if rest.len() > 0 {
            assert(rest[0] == cs[k as int + 1]);
            assert(name_le(cs[k as int].name, cs[k as int + 1].name));
        }
        assert(seq![cs[k as int]] + rest =~= cs.subrange(k as int, cs.len() as int));
    } else {
        assert(cs.subrange(k as int, cs.len() as int) =~= Seq::<EntryView>::empty());
    }
}

/// Sorting twice gives what sorting once gives.
pub proof fn law_sort_is_idempotent(e: EntryView)
    ensures
        sort_tree(sort_tree(e)) == sort_tree(e),
{
    law_sort_sorts(e);
    law_sorted_stays(sort_tree(e));
}

/// The chapters of `cs` from the one at `k` on, each sorted within, in the
/// order in which they stand.
pub open spec fn each_sorted(cs: Seq<EntryView>, k: nat) -> Seq<EntryView> {
    Seq::new((cs.len() - k) as nat, |i: int| sort_tree(cs[k + i]))
}

/// The entries of `cs` that have the given name, in the order in which they
/// stand.
pub open spec fn named(cs: Seq<EntryView>, name: Seq<char>) -> Seq<EntryView>
    decreases cs.len(),
{
    if cs.len() == 0 {
        cs
    } else if cs[0].name == name {
        seq![cs[0]] + named(cs.drop_first(), name)
    } else {
        named(cs.drop_first(), name)
    }
}

/// Inserting by name adds the entry and takes none away.
pub proof fn lemma_insert_adds_one(e: EntryView, sorted: Seq<EntryView>)
    ensures
        insert_by_name(e, sorted).to_multiset() == sorted.to_multiset().insert(e),
    decreases sorted.len(),
{
    if sorted.len() == 0 || name_le(e.name, sorted[0].name) {
        assert(seq![e] + sorted =~= sorted.insert(0, e));
        vstd::seq_lib::to_multiset_insert(sorted, 0, e);
    } else {
        let rest = sorted.drop_first();
        let inner = insert_by_name(e, rest);
        lemma_insert_adds_one(e, rest);
        assert(seq![sorted[0]] + inner =~= inner.insert(0, sorted[0]));
        vstd::seq_lib::to_multiset_insert(inner, 0, sorted[0]);
        assert(sorted =~= rest.insert(0, sorted[0]));
        vstd::seq_lib::to_multiset_insert(rest, 0, sorted[0]);
        assert(rest.to_multiset().insert(e).insert(sorted[0]) =~= rest.to_multiset().insert(
            sorted[0],
        ).insert(e));
    }
}

/// Inserting by name puts the entry before those of its own name and leaves
/// the entries of every name in their order.
pub proof fn lemma_insert_goes_first(e: EntryView, sorted: Seq<EntryView>, name: Seq<char>)
    ensures
        named(insert_by_name(e, sorted), name) == if e.name == name {
            seq![e] + named(sorted, name)
        } else {
            named(sorted, name)
        },
    decreases sorted.len(),
{
    let r = insert_by_name(e, sorted);
    if sorted.len() == 0 || name_le(e.name, sorted[0].name) {
        assert(r.drop_first() =~= sorted);
    } else {
        let rest = sorted.drop_first();
        lemma_insert_goes_first(e, rest, name);
        assert(r.drop_first() =~= insert_by_name(e, rest));
        lemma_name_le_reflexive(e.name);
    }
}

/// The chapters sorted from `k` on are those from `k` on, each sorted within:
/// none is lost, none is added, and those of one name keep their order.
pub proof fn lemma_sort_from_keeps(cs: Seq<EntryView>, k: nat, name: Seq<char>)
    requires
        k <= cs.len(),
    ensures
        sort_from(cs, k).to_multiset() == each_sorted(cs, k).to_multiset(),
        named(sort_from(cs, k), name) == named(each_sorted(cs, k), name),
    decreases cs.len() - k,
{
    let here = each_sorted(cs, k);
    if k < cs.len() {
        let e = sort_tree(cs[k as int]);
        let later = each_sorted(cs, k + 1);
        lemma_sort_from_keeps(cs, k + 1, name);
        lemma_insert_adds_one(e, sort_from(cs, k + 1));
        lemma_insert_goes_first(e, sort_from(cs, k + 1), name);
        assert(here =~= later.insert(0, e));
        vstd::seq_lib::to_multiset_insert(later, 0, e);
        assert(here.drop_first() =~= later);
        assert(here[0] == e);
    } else {
        assert(here =~= Seq::<EntryView>::empty());
        assert(sort_from(cs, k) =~= Seq::<EntryView>::empty());
    }
}

/// Sorting only rearranges: the chapters of a sorted entry are the chapters
/// of the entry, each sorted within.
pub proof fn law_sort_permutes(e: EntryView)
    ensures
        sort_tree(e).name == e.name,
        sort_tree(e).path == e.path,
        sort_tree(e).is_dir == e.is_dir,
        sort_tree(e).introduction == e.introduction,
        sort_tree(e).children.to_multiset() == each_sorted(e.children, 0).to_multiset(),
{
    lemma_sort_from_keeps(e.children, 0, Seq::empty());
}

/// Sorting is stable: among the chapters of a sorted entry, those of one name
/// stand in the order in which they stood before.
pub proof fn law_sort_is_stable(e: EntryView, name: Seq<char>)
    ensures
        named(sort_tree(e).children, name) == named(each_sorted(e.children, 0), name),
{
    lemma_sort_from_keeps(e.children, 0, name);
}

/// Every entry of what inserting by name gives is the new entry or one of
/// those that were there.
pub proof fn lemma_insert_members(e: EntryView, sorted: Seq<EntryView>)
    ensures
        insert_by_name(e, sorted).len() == sorted.len() + 1,
        forall|i: int|
            0 <= i < insert_by_name(e, sorted).len() ==> (#[trigger] insert_by_name(e, sorted)[i])
                == e || sorted.contains(insert_by_name(e, sorted)[i]),
    decreases sorted.len(),
{
    let r = insert_by_name(e, sorted);
    if sorted.len() == 0 || name_le(e.name, sorted[0].name) {
        assert forall|i: int| 0 <= i < r.len() implies (#[trigger] r[i]) == e || sorted.contains(
            r[i],
        ) by {
            if i > 0 {
                assert(r[i] == sorted[i - 1]);
            }
        }
    } else {
        let rest = sorted.drop_first();
        let inner = insert_by_name(e, rest);
        lemma_insert_members(e, rest);
        assert forall|i: int| 0 <= i < r.len() implies (#[trigger] r[i]) == e || sorted.contains(
            r[i],
        ) by {
            if i > 0 {
                assert(r[i] == inner[i - 1]);
                if inner[i - 1] != e {
                    let j = choose|j: int| 0 <= j < rest.len() && rest[j] == inner[i - 1];
                    assert(sorted[j + 1] == r[i]);
                }
            } else {
                assert(r[0] == sorted[0]);
            }
        }
    }
}

/// Sorting keeps an entry well formed.
pub proof fn law_sort_keeps_well_formed(e: EntryView)
    requires
        well_formed(e),
    ensures
        well_formed(sort_tree(e)),
    decreases e, 0nat,
{
    lemma_sort_from_well_formed(e.children, 0);
}

/// The chapters sorted from `k` on are as many as there were, and well formed
/// where all chapters were.
pub proof fn lemma_sort_from_well_formed(cs: Seq<EntryView>, k: nat)
    requires
        forall|i: int| 0 <= i < cs.len() ==> well_formed(#[trigger] cs[i]),
    ensures
        k <= cs.len() ==> sort_from(cs, k).len() == cs.len() - k,
        forall|i: int|
            0 <= i < sort_from(cs, k).len() ==> well_formed(#[trigger] sort_from(cs, k)[i]),
    decreases cs, cs.len() - k,
{
    if k < cs.len() {
        law_sort_keeps_well_formed(cs[k as int]);
        lemma_sort_from_well_formed(cs, k + 1);
        lemma_insert_members(sort_tree(cs[k as int]), sort_from(cs, k + 1));
    }
}

} // verus!
