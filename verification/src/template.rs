//! The grammar of partition templates, on bytes.
//!
//! A placeholder is `{{`, then one or more bytes none of which is an ASCII digit,
//! then `}}`. A template is read from left to right: the matcher takes the first
//! place at which a placeholder starts, takes the longest placeholder that
//! starts there, and goes on behind it.

use crate::text::is_digit;
use vstd::prelude::*;
use vstd::utf8::*;

verus! {

/// The byte `{`.
pub const OPEN: u8 = 0x7B;

/// The byte `}`.
pub const CLOSE: u8 = 0x7D;

/// Is `t[start..end]` a placeholder: `{{`, a name of one or more bytes that are
/// not digits, `}}`?
pub open spec fn is_placeholder(t: Seq<u8>, start: int, end: int) -> bool {
    &&& 0 <= start
    &&& start + 5 <= end <= t.len()
    &&& t[start] == OPEN
    &&& t[start + 1] == OPEN
    &&& t[end - 2] == CLOSE
    &&& t[end - 1] == CLOSE
    &&& forall|k: int| start + 2 <= k < end - 2 ==> !is_digit(#[trigger] t[k])
}

/// Is `t[start..end]` the longest placeholder that starts at `start`?
pub open spec fn is_match(t: Seq<u8>, start: int, end: int) -> bool {
    &&& is_placeholder(t, start, end)
    &&& forall|e: int| #[trigger] is_placeholder(t, start, e) ==> e <= end
}

/// Is `t[start..end]` what the matcher finds first when it starts at `from`?
pub open spec fn is_first_match(t: Seq<u8>, from: int, start: int, end: int) -> bool {
    &&& from <= start
    &&& is_match(t, start, end)
    &&& forall|s: int, e: int| from <= s < start ==> !#[trigger] is_placeholder(t, s, e)
}

/// Does a placeholder start at or behind `from`?
pub open spec fn has_placeholder(t: Seq<u8>, from: int) -> bool {
    exists|s: int, e: int| from <= s && #[trigger] is_placeholder(t, s, e)
}

/// Does the matcher find anything when it starts at `from`?
pub open spec fn has_match(t: Seq<u8>, from: int) -> bool {
    exists|s: int, e: int| #[trigger] is_first_match(t, from, s, e)
}

/// What the matcher finds first when it starts at `from`: start and end.
pub open spec fn first_match(t: Seq<u8>, from: int) -> (int, int) {
    choose|m: (int, int)| is_first_match(t, from, m.0, m.1)
}

/// The name inside the placeholder `t[start..end]`.
pub open spec fn name_of(t: Seq<u8>, start: int, end: int) -> Seq<u8> {
    t.subrange(start + 2, end - 2)
}

/// The name of the first placeholder of `t`.
pub open spec fn first_name(t: Seq<u8>) -> Seq<u8> {
    name_of(t, first_match(t, 0).0, first_match(t, 0).1)
}

/// All that the matcher finds in `t` from `from` on, from left to right.
pub open spec fn regions_from(t: Seq<u8>, from: int) -> Seq<(int, int)>
    decreases t.len() - from,
{
    let m = first_match(t, from);
    if has_match(t, from) && from < m.1 <= t.len() {
        seq![m] + regions_from(t, m.1)
    } else {
        seq![]
    }
}

/// All that the matcher finds in `t`.
pub open spec fn regions(t: Seq<u8>) -> Seq<(int, int)> {
    regions_from(t, 0)
}

/// The text of `t` from `from` on, with `value` in place of each of `found`.
pub open spec fn fill(t: Seq<u8>, found: Seq<(int, int)>, from: int, value: Seq<u8>) -> Seq<u8>
    decreases found.len(),
{
    if found.len() == 0 {
        t.subrange(from, t.len() as int)
    } else {
        t.subrange(from, found[0].0) + value + fill(t, found.drop_first(), found[0].1, value)
    }
}

/// The template `t` with `value` in place of everything that the matcher finds.
pub open spec fn substituted(t: Seq<u8>, value: Seq<u8>) -> Seq<u8> {
    fill(t, regions(t), 0, value)
}

/// Do the regions follow one another from `from` on, inside a text of `len` bytes?
pub open spec fn in_order(found: Seq<(int, int)>, from: int, len: int) -> bool
    decreases found.len(),
{
    if found.len() == 0 {
        0 <= from <= len
    } else {
        &&& 0 <= from <= found[0].0 <= found[0].1 <= len
        &&& in_order(found.drop_first(), found[0].1, len)
    }
}

/// Where a placeholder starts at or behind `from`, the matcher finds something.
pub proof fn lemma_first_match_exists(t: Seq<u8>, from: int, s: int, e: int)
    requires
        0 <= from <= s,
        is_placeholder(t, s, e),
    ensures
        has_match(t, from),
        first_match(t, from).0 <= s,
    decreases s - from,
{
    if exists|s2: int, e2: int| from <= s2 < s && #[trigger] is_placeholder(t, s2, e2) {
        let (s2, e2) = choose|s2: int, e2: int|
            from <= s2 < s && #[trigger] is_placeholder(t, s2, e2);
        lemma_first_match_exists(t, from, s2, e2);
    } else {
        let end = lemma_longest_exists(t, s, e, t.len() as int);
        assert(is_first_match(t, from, s, end));
        let m = first_match(t, from);
        assert(is_first_match(t, from, m.0, m.1)) by {
            assert(is_first_match(t, from, (s, end).0, (s, end).1));
        }
        lemma_first_match_unique(t, from, s, end, m.0, m.1);
    }
}

/// Among the placeholders that start at `s` one is the longest.
proof fn lemma_longest_exists(t: Seq<u8>, s: int, e: int, bound: int) -> (end: int)
    requires
        is_placeholder(t, s, e),
        e <= bound,
        forall|e2: int| #[trigger] is_placeholder(t, s, e2) ==> e2 <= bound,
    ensures
        is_match(t, s, end),
    decreases bound - e,
{
    if exists|e2: int| e < e2 && #[trigger] is_placeholder(t, s, e2) {
        let e2 = choose|e2: int| e < e2 && #[trigger] is_placeholder(t, s, e2);
        lemma_longest_exists(t, s, e2, bound)
    } else {
        e
    }
}

/// What the matcher finds first is determined.
pub proof fn lemma_first_match_unique(t: Seq<u8>, from: int, s1: int, e1: int, s2: int, e2: int)
    requires
        is_first_match(t, from, s1, e1),
        is_first_match(t, from, s2, e2),
    ensures
        s1 == s2,
        e1 == e2,
{
    if s1 < s2 {
        assert(!is_placeholder(t, s1, e1));
    }
    if s2 < s1 {
        assert(!is_placeholder(t, s2, e2));
    }
}

/// What the matcher finds first is what `first_match` names.
pub proof fn lemma_first_match_is(t: Seq<u8>, from: int, s: int, e: int)
    requires
        is_first_match(t, from, s, e),
    ensures
        has_match(t, from),
        first_match(t, from) == (s, e),
{
    let m = first_match(t, from);
    assert(is_first_match(t, from, (s, e).0, (s, e).1));
    lemma_first_match_unique(t, from, s, e, m.0, m.1);
}

/// Where the matcher finds something, `first_match` names it, and the regions
/// are that one and those behind it.
pub proof fn lemma_first_match_holds(t: Seq<u8>, from: int)
    requires
        has_match(t, from),
    ensures
        is_first_match(t, from, first_match(t, from).0, first_match(t, from).1),
        has_placeholder(t, from),
        regions_from(t, from) == seq![first_match(t, from)] + regions_from(
            t,
            first_match(t, from).1,
        ),
{
    let w = choose|s: int, e: int| #[trigger] is_first_match(t, from, s, e);
    assert(is_first_match(t, from, (w.0, w.1).0, (w.0, w.1).1));
    let m = first_match(t, from);
    assert(from <= m.0 && is_placeholder(t, m.0, m.1));
}

/// Where no placeholder starts at or behind `from`, the matcher finds nothing.
pub proof fn lemma_no_match(t: Seq<u8>, from: int)
    requires
        !has_placeholder(t, from),
    ensures
        !has_match(t, from),
        regions_from(t, from) == Seq::<(int, int)>::empty(),
{
    assert forall|s: int, e: int| !#[trigger] is_first_match(t, from, s, e) by {
        if is_first_match(t, from, s, e) {
            assert(from <= s && is_placeholder(t, s, e));
        }
    }
}

/// The regions that the matcher finds follow one another inside the text.
pub proof fn lemma_regions_in_order(t: Seq<u8>, from: int)
    requires
        0 <= from <= t.len(),
    ensures
        in_order(regions_from(t, from), from, t.len() as int),
    decreases t.len() - from,
{
    let m = first_match(t, from);
    if has_match(t, from) && from < m.1 <= t.len() {
        let found = regions_from(t, from);
        assert(found.drop_first() =~= regions_from(t, m.1));
        lemma_first_match_holds(t, from);
        lemma_regions_in_order(t, m.1);
    }
}

/// The name of a placeholder in valid UTF-8 is valid UTF-8: the braces around
/// it are characters of their own.
pub proof fn lemma_name_is_utf8(t: Seq<u8>, start: int, end: int)
    requires
        valid_utf8(t),
        is_placeholder(t, start, end),
    ensures
        valid_utf8(name_of(t, start, end)),
{
    is_char_boundary_iff_not_is_continuation_byte(t, start + 1);
    valid_utf8_split(t, start + 1);
    let from_brace = t.subrange(start + 1, t.len() as int);
    assert(from_brace[0] == OPEN);
    let behind = pop_first_scalar(from_brace);
    assert(behind =~= t.subrange(start + 2, t.len() as int));
    let len = end - 2 - (start + 2);
    assert(behind[len] == CLOSE);
    is_char_boundary_iff_not_is_continuation_byte(behind, len);
    valid_utf8_split(behind, len);
    assert(behind.subrange(0, len) =~= name_of(t, start, end));
}

/// A template without a placeholder stays as it is, whatever the value.
pub proof fn lemma_plain_template(t: Seq<u8>, value: Seq<u8>)
    requires
        !has_placeholder(t, 0),
    ensures
        substituted(t, value) == t,
{
    lemma_no_match(t, 0);
    assert(t.subrange(0, t.len() as int) =~= t);
}

/// The template that holds `prefix`, then a placeholder with the name `name`,
/// then `suffix`.
pub open spec fn around(prefix: Seq<u8>, name: Seq<u8>, suffix: Seq<u8>) -> Seq<u8> {
    prefix + seq![OPEN, OPEN] + name + seq![CLOSE, CLOSE] + suffix
}

/// A template with a placeholder between two texts, in which every placeholder
/// that the grammar admits lies inside that one: the matcher finds that
/// placeholder first, its name is the name written, and the template with a
/// value in place of what the matcher finds is the first text, the value, the
/// second text.
pub proof fn lemma_placeholder_between(
    prefix: Seq<u8>,
    name: Seq<u8>,
    suffix: Seq<u8>,
    value: Seq<u8>,
)
    requires
        name.len() > 0,
        forall|k: int| 0 <= k < name.len() ==> !is_digit(#[trigger] name[k]),
        forall|s: int, e: int| #[trigger]
            is_placeholder(around(prefix, name, suffix), s, e) ==> prefix.len() <= s && e
                <= prefix.len() + name.len() + 4,
    ensures
        has_placeholder(around(prefix, name, suffix), 0),
        first_match(around(prefix, name, suffix), 0) == (
            prefix.len() as int,
            (prefix.len() + name.len() + 4) as int,
        ),
        first_name(around(prefix, name, suffix)) == name,
        substituted(around(prefix, name, suffix), value) == prefix + value + suffix,
{
    let t = around(prefix, name, suffix);
    let start = prefix.len() as int;
    let end = start + name.len() + 4;
    assert(is_placeholder(t, start, end)) by {
        assert forall|k: int| start + 2 <= k < end - 2 implies !is_digit(#[trigger] t[k]) by {
            assert(t[k] == name[k - start - 2]);
        }
    }
    assert(is_first_match(t, 0, start, end));
    lemma_first_match_is(t, 0, start, end);
    lemma_first_match_holds(t, 0);
    assert(name_of(t, start, end) =~= name);
    assert(!has_placeholder(t, end)) by {
        if has_placeholder(t, end) {
            let (s, e) = choose|s: int, e: int| end <= s && #[trigger] is_placeholder(t, s, e);
            assert(e <= end);
        }
    }
    lemma_no_match(t, end);
    let found = regions(t);
    assert(found =~= seq![(start, end)]);
    assert(found.drop_first() =~= Seq::<(int, int)>::empty());
    assert(t.subrange(0, start) =~= prefix);
    assert(t.subrange(end, t.len() as int) =~= suffix);
    assert(fill(t, found.drop_first(), end, value) == suffix);
    assert(fill(t, found, 0, value) == t.subrange(0, found[0].0) + value + fill(
        t,
        found.drop_first(),
        found[0].1,
        value,
    ));
}

/// What the matcher finds first in `t` when it starts at `from`, if anything.
pub fn find_placeholder(t: &[u8], from: usize) -> (r: Option<(usize, usize)>)
    requires
        from <= t.len(),
    ensures
        match r {
            Some((s, e)) => is_first_match(t@, from as int, s as int, e as int),
            None => !has_placeholder(t@, from as int),
        },
{
    let len = t.len();
    let mut s: usize = from;
    while len - s >= 5
        invariant
            from <= s <= len,
            len == t.len(),
            forall|s2: int, e2: int| from <= s2 < s ==> !#[trigger] is_placeholder(t@, s2, e2),
        decreases len - s,
    {
        if t[s] == OPEN && t[s + 1] == OPEN {
            let mut best: Option<usize> = None;
            let mut k: usize = s + 2;
            while k < len && !(0x30 <= t[k] && t[k] <= 0x39)
                invariant
                    s + 2 <= k <= len,
                    len == t.len(),
                    t@[s as int] == OPEN,
                    t@[s + 1] == OPEN,
                    forall|j: int| s + 2 <= j < k ==> !is_digit(#[trigger] t@[j]),
                    match best {
                        Some(e) => is_placeholder(t@, s as int, e as int) && e <= k + 1,
                        None => true,
                    },
                    forall|e: int|
                        #[trigger] is_placeholder(t@, s as int, e) && e - 2 < k ==> best is Some
                            && e <= best->0,
                decreases len - k,
            {
                if k >= s + 3 && t[k] == CLOSE && k + 1 < len && t[k + 1] == CLOSE {
                    best = Some(k + 2);
                }
                k += 1;
            }
            proof {
                assert forall|e: int| #[trigger] is_placeholder(t@, s as int, e) implies e - 2
                    < k by {
                    if e - 2 >= k {
                        assert(k < len && is_digit(t@[k as int]));
                        assert(t@[e - 2] == CLOSE);
                    }
                }
            }
            match best {
                Some(e) => {
                    return Some((s, e));
                },
                None => {},
            }
        }
        s += 1;
    }
    proof {
        assert forall|s2: int, e2: int| from <= s2 implies !#[trigger] is_placeholder(
            t@,
            s2,
            e2,
        ) by {}
    }
    None
}

} // verus!
