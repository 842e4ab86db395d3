//! Operations on paths and names as sequences of characters.

use vstd::prelude::*;
use vstd::std_specs::iter::IteratorSpec;

verus! {

/// What `char::is_whitespace` answers for a character: whether it carries the
/// Unicode `White_Space` property.
pub uninterp spec fn white_space(c: char) -> bool;

/// Calls `char::is_whitespace`. The answer depends on the character alone, and
/// `white_space` is the name of that answer.
#[verifier::external_body]
pub(crate) fn is_whitespace(c: char) -> (r: bool)
    ensures
        r == white_space(c),
{
    c.is_whitespace()
}

/// The part of `s` behind its last `sep`; all of `s` where it holds none.
pub open spec fn after_last(s: Seq<char>, sep: char) -> Seq<char>
    decreases s.len(),
{
    if s.len() == 0 {
        s
    } else if s.last() == sep {
        Seq::empty()
    } else {
        after_last(s.drop_last(), sep).push(s.last())
    }
}

/// The part of `s` before its last `sep`; empty where it holds none.
pub open spec fn before_last(s: Seq<char>, sep: char) -> Seq<char>
    decreases s.len(),
{
    if s.len() == 0 {
        s
    } else if s.last() == sep {
        s.drop_last()
    } else {
        before_last(s.drop_last(), sep)
    }
}

/// `s` without the white space at its start.
pub open spec fn trim_start(s: Seq<char>) -> Seq<char>
    decreases s.len(),
{
    if s.len() > 0 && white_space(s[0]) {
        trim_start(s.drop_first())
    } else {
        s
    }
}

/// `s` without the white space at its end.
pub open spec fn trim_end(s: Seq<char>) -> Seq<char>
    decreases s.len(),
{
    if s.len() > 0 && white_space(s.last()) {
        trim_end(s.drop_last())
    } else {
        s
    }
}

/// `s` without the white space at either end.
pub open spec fn trim(s: Seq<char>) -> Seq<char> {
    trim_end(trim_start(s))
}

/// Whether `a` comes before `b` or equals it, character by character in the
/// order of the code points; a proper prefix comes first.
pub open spec fn name_le(a: Seq<char>, b: Seq<char>) -> bool
    decreases a.len(),
{
    if a.len() == 0 {
        true
    } else if b.len() == 0 {
        false
    } else if a[0] != b[0] {
        a[0] < b[0]
    } else {
        name_le(a.drop_first(), b.drop_first())
    }
}

/// Where `s` holds `sep` at `i` and nowhere behind it, `i` is where the two
/// parts meet.
pub proof fn lemma_split_at_last(s: Seq<char>, sep: char, i: int)
    requires
        0 <= i < s.len(),
        s[i] == sep,
        forall|j: int| i < j < s.len() ==> s[j] != sep,
    ensures
        after_last(s, sep) == s.subrange(i + 1, s.len() as int),
        before_last(s, sep) == s.subrange(0, i),
    decreases s.len(),
{
    if s.last() == sep {
        assert(i == s.len() - 1);
        assert(s.subrange(i + 1, s.len() as int) =~= Seq::<char>::empty());
        assert(s.drop_last() =~= s.subrange(0, i));
    } else {
        lemma_split_at_last(s.drop_last(), sep, i);
        assert(s.drop_last().subrange(i + 1, s.len() - 1).push(s.last()) =~= s.subrange(
            i + 1,
            s.len() as int,
        ));
        assert(s.drop_last().subrange(0, i) =~= s.subrange(0, i));
    }
}

/// Where `s` holds no `sep`, all of it lies behind the last one and nothing
/// before it.
pub proof fn lemma_split_without(s: Seq<char>, sep: char)
    requires
        forall|j: int| 0 <= j < s.len() ==> s[j] != sep,
    ensures
        after_last(s, sep) == s,
        before_last(s, sep) == Seq::<char>::empty(),
    decreases s.len(),
{
    if s.len() > 0 {
        lemma_split_without(s.drop_last(), sep);
        assert(s.drop_last().push(s.last()) =~= s);
    } else {
        assert(s =~= Seq::<char>::empty());
    }
}

/// Trimming the start drops exactly the leading run of white space.
pub proof fn lemma_trim_start(s: Seq<char>, lo: int)
    requires
        0 <= lo <= s.len(),
        forall|j: int| 0 <= j < lo ==> white_space(s[j]),
        lo < s.len() ==> !white_space(s[lo]),
    ensures
        trim_start(s) == s.subrange(lo, s.len() as int),
    decreases lo,
{
    if lo == 0 {
        assert(s.subrange(0, s.len() as int) =~= s);
    } else {
        lemma_trim_start(s.drop_first(), lo - 1);
        assert(s.drop_first().subrange(lo - 1, s.len() - 1) =~= s.subrange(lo, s.len() as int));
    }
}

/// Trimming the end drops exactly the trailing run of white space.
pub proof fn lemma_trim_end(s: Seq<char>, hi: int)
    requires
        0 <= hi <= s.len(),
        forall|j: int| hi <= j < s.len() ==> white_space(s[j]),
        hi > 0 ==> !white_space(s[hi - 1]),
    ensures
        trim_end(s) == s.subrange(0, hi),
    decreases s.len() - hi,
{
    if hi == s.len() {
        assert(s.subrange(0, hi) =~= s);
    } else {
        lemma_trim_end(s.drop_last(), hi);
        assert(s.drop_last().subrange(0, hi) =~= s.subrange(0, hi));
    }
}

/// Of two names, one comes before the other or equals it.
pub proof fn lemma_name_le_total(a: Seq<char>, b: Seq<char>)
    ensures
        name_le(a, b) || name_le(b, a),
    decreases a.len(),
{
    if a.len() > 0 && b.len() > 0 && a[0] == b[0] {
        lemma_name_le_total(a.drop_first(), b.drop_first());
    }
}

/// Every name comes before or equals itself.
pub proof fn lemma_name_le_reflexive(a: Seq<char>)
    ensures
        name_le(a, a),
    decreases a.len(),
{
    if a.len() > 0 {
        lemma_name_le_reflexive(a.drop_first());
    }
}

/// The characters of a string, in order.
pub fn chars_of(s: &str) -> (v: Vec<char>)
    ensures
        v@ == s@,
{
    broadcast use vstd::string::group_string_axioms;
    let mut v: Vec<char> = Vec::new();
    let mut it = s.chars();
    loop
        invariant
            v@ + it.remaining() == s@,
            it.obeys_prophetic_iter_laws(),
        decreases s@.len() - v@.len(),
    {
        match it.next() {
            Some(c) => {
                v.push(c);
                assert(v@ + it.remaining() =~= s@);
            },
            None => {
                assert(v@ =~= s@);
                return v;
            },
        }
    }
}

/// Finds the last `sep` among the characters of `v` from `from` up to `to`.
pub fn find_last(v: &Vec<char>, from: usize, to: usize, sep: char) -> (r: Option<usize>)
    requires
        from <= to <= v.len(),
    ensures
        match r {
            Some(i) => {
                &&& from <= i < to
                &&& v[i as int] == sep
                &&& after_last(v@.subrange(from as int, to as int), sep) == v@.subrange(
                    i + 1,
                    to as int,
                )
                &&& before_last(v@.subrange(from as int, to as int), sep) == v@.subrange(
                    from as int,
                    i as int,
                )
            },
            None => {
                &&& after_last(v@.subrange(from as int, to as int), sep) == v@.subrange(
                    from as int,
                    to as int,
                )
                &&& before_last(v@.subrange(from as int, to as int), sep) == Seq::<char>::empty()
            },
        },
{
    let ghost part = v@.subrange(from as int, to as int);
    let mut k: usize = to;
    while k > from
        invariant
            from <= k <= to <= v.len(),
            part == v@.subrange(from as int, to as int),
            forall|j: int| k <= j < to ==> v[j] != sep,
        decreases k,
    {
        k = k - 1;
        if v[k] == sep {
            proof {
                lemma_split_at_last(part, sep, k - from);
                assert(part.subrange(k - from + 1, part.len() as int) =~= v@.subrange(
                    k + 1,
                    to as int,
                ));
                assert(part.subrange(0, k - from) =~= v@.subrange(from as int, k as int));
            }
            return Some(k);
        }
    }
    proof {
        lemma_split_without(part, sep);
    }
    None
}

/// Finds where the characters of `v` from `from` up to `to` begin and end once
/// the white space at both ends is left out.
pub fn trim_bounds(v: &Vec<char>, from: usize, to: usize) -> (r: (usize, usize))
    requires
        from <= to <= v.len(),
    ensures
        from <= r.0 <= r.1 <= to,
        trim(v@.subrange(from as int, to as int)) == v@.subrange(r.0 as int, r.1 as int),
{
    let ghost part = v@.subrange(from as int, to as int);
    let mut lo: usize = from;
    while lo < to && is_whitespace(v[lo])
        invariant
            from <= lo <= to <= v.len(),
            forall|j: int| from <= j < lo ==> white_space(v[j]),
        decreases to - lo,
    {
        lo = lo + 1;
    }
    let mut hi: usize = to;
    while hi > lo && is_whitespace(v[hi - 1])
        invariant
            lo <= hi <= to <= v.len(),
            forall|j: int| hi <= j < to ==> white_space(v[j]),
        decreases hi,
    {
        hi = hi - 1;
    }
    proof {
        let rest = v@.subrange(lo as int, to as int);
        lemma_trim_start(part, lo - from);
        assert(part.subrange(lo - from, part.len() as int) =~= rest);
        lemma_trim_end(rest, hi - lo);
        assert(rest.subrange(0, hi - lo) =~= v@.subrange(lo as int, hi as int));
    }
    (lo, hi)
}

/// Whether `v` ends with `suffix`.
pub fn ends_with(v: &Vec<char>, suffix: &Vec<char>) -> (r: bool)
    ensures
        r == suffix@.is_suffix_of(v@),
{
    if suffix.len() > v.len() {
        return false;
    }
    let shift: usize = v.len() - suffix.len();
    let mut k: usize = 0;
    while k < suffix.len()
        invariant
            shift + suffix.len() == v.len(),
            k <= suffix.len(),
            forall|j: int| 0 <= j < k ==> v[shift + j] == suffix[j],
        decreases suffix.len() - k,
    {
        if v[shift + k] != suffix[k] {
            assert(v@.subrange(shift as int, v.len() as int)[k as int] != suffix[k as int]);
            return false;
        }
        k = k + 1;
    }
    assert(suffix@ =~= v@.subrange(shift as int, v.len() as int));
    true
}

/// Whether the name `a` comes before the name `b` or equals it.
pub fn precedes_or_equals(a: &Vec<char>, b: &Vec<char>) -> (r: bool)
    ensures
        r == name_le(a@, b@),
{
    let mut k: usize = 0;
    assert(a@.subrange(0, a.len() as int) =~= a@);
    assert(b@.subrange(0, b.len() as int) =~= b@);
    loop
        invariant
            k <= a.len(),
            k <= b.len(),
            name_le(a@, b@) == name_le(
                a@.subrange(k as int, a.len() as int),
                b@.subrange(k as int, b.len() as int),
            ),
        decreases a.len() - k,
    {
        let ghost ra = a@.subrange(k as int, a.len() as int);
        let ghost rb = b@.subrange(k as int, b.len() as int);
        if k == a.len() {
            return true;
        }
        if k == b.len() {
            return false;
        }
        let x: char = a[k];
        let y: char = b[k];
        assert(ra[0] == x && rb[0] == y);
        if x != y {
            return x < y;
        }
        assert(ra.drop_first() =~= a@.subrange(k + 1, a.len() as int));
        assert(rb.drop_first() =~= b@.subrange(k + 1, b.len() as int));
        k = k + 1;
    }
}

} // verus!
