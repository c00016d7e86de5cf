//! The identity of a component: the normalized `"name version"` string by
//! which a node of the tree and a build event are compared.

use vstd::prelude::*;
use crate::text::{
    chars_of, push_char, rfind_class, rfind_in, skip_class, skip_in, trim_end_class,
    trim_end_in, CharClass,
};

verus! {

/// `s` with every underscore turned into a hyphen.
pub open spec fn dashed(s: Seq<char>) -> Seq<char> {
    s.map_values(|c: char| if c == '_' { '-' } else { c })
}

/// The first index at or after `i` at which a space is followed by an opening
/// parenthesis, or `s.len()`: where the source suffix of a package id begins.
pub open spec fn suffix_start(s: Seq<char>, i: int) -> int
    decreases s.len() - i,
{
    if i < 0 || i + 1 >= s.len() {
        s.len() as int
    } else if s[i] == ' ' && s[i + 1] == '(' {
        i
    } else {
        suffix_start(s, i + 1)
    }
}

/// `s` without its leading and trailing white space.
pub open spec fn trimmed(s: Seq<char>) -> Seq<char> {
    let from = skip_class(s, CharClass::Space, 0);
    let to = trim_end_class(s, CharClass::Space, s.len() as int);
    if from <= to {
        s.subrange(from, to)
    } else {
        Seq::empty()
    }
}

/// `version` without the `v` it may begin with.
pub open spec fn bare_version(version: Seq<char>) -> Seq<char> {
    if version.len() > 0 && version[0] == 'v' {
        version.skip(1)
    } else {
        version
    }
}

/// The identity that a package id stands for.
///
/// The source suffix is cut off and the rest trimmed. What is left is split
/// at its last space into a name and a version: the identity is the name with
/// hyphens for underscores, one space, and the version without a leading `v`.
/// Without a space there is no version, and no identity.
pub open spec fn crate_name(pkg_id: Seq<char>) -> Option<Seq<char>> {
    let t = trimmed(pkg_id.take(suffix_start(pkg_id, 0)));
    match rfind_class(t, CharClass::Exactly(' '), t.len() as int) {
        None => None,
        Some(at) => Some(dashed(t.take(at)) + seq![' '] + bare_version(t.skip(at + 1))),
    }
}

fn find_suffix(s: &Vec<char>) -> (at: usize)
    ensures
        at == suffix_start(s@, 0),
        at <= s.len(),
{
    let mut i: usize = 0;
    while i < s.len() && i + 1 < s.len() && !(s[i] == ' ' && s[i + 1] == '(')
        invariant
            i <= s.len(),
            suffix_start(s@, 0) == suffix_start(s@, i as int),
        decreases s.len() - i,
    {
        i += 1;
    }
    if i < s.len() && i + 1 < s.len() {
        i
    } else {
        s.len()
    }
}

fn push_dashed(out: &mut String, s: &Vec<char>, from: usize, to: usize)
    requires
        from <= to <= s.len(),
    ensures
        final(out)@ == old(out)@ + dashed(s@.subrange(from as int, to as int)),
{
    let mut i: usize = from;
    while i < to
        invariant
            from <= i <= to <= s.len(),
            out@ == old(out)@ + dashed(s@.subrange(from as int, i as int)),
        decreases to - i,
    {
        let c = s[i];
        push_char(out, if c == '_' { '-' } else { c });
        i += 1;
    }
}

fn push_range(out: &mut String, s: &Vec<char>, from: usize, to: usize)
    requires
        from <= to <= s.len(),
    ensures
        final(out)@ == old(out)@ + s@.subrange(from as int, to as int),
{
    let mut i: usize = from;
    while i < to
        invariant
            from <= i <= to <= s.len(),
            out@ == old(out)@ + s@.subrange(from as int, i as int),
        decreases to - i,
    {
        push_char(out, s[i]);
        i += 1;
    }
}

/// The identity that the package id held in `s[from..to]` stands for.
pub fn crate_name_in(s: &Vec<char>, from: usize, to: usize) -> (name: Option<String>)
    requires
        from <= to <= s.len(),
    ensures
        match name {
            Some(n) => crate_name(s@.subrange(from as int, to as int)) == Some(n@),
            None => crate_name(s@.subrange(from as int, to as int)).is_none(),
        },
{
    let id = crate::text::slice_of(s, from, to);
    let cut = find_suffix(&id);
    let head = crate::text::slice_of(&id, 0, cut);
    let start = skip_in(&head, CharClass::Space, 0);
    let end = trim_end_in(&head, CharClass::Space, head.len());
    let t = if start <= end {
        crate::text::slice_of(&head, start, end)
    } else {
        Vec::new()
    };
    assert(head@ == id@.take(cut as int));
    assert(t@ == trimmed(head@));
    match rfind_in(&t, CharClass::Exactly(' '), t.len()) {
        None => None,
        Some(at) => {
            let mut out = String::new();
            push_dashed(&mut out, &t, 0, at);
            push_char(&mut out, ' ');
            let skip: usize = if at + 1 < t.len() && t[at + 1] == 'v' {
                at + 2
            } else {
                at + 1
            };
            push_range(&mut out, &t, skip, t.len());
            proof {
                let version = t@.skip(at + 1);
                assert(t@.subrange(0, at as int) == t@.take(at as int));
                assert(t@.subrange(skip as int, t.len() as int) == bare_version(version));
            }
            Some(out)
        },
    }
}

/// The identity that the package id held in `s[from..to]` stands for, once
/// white space is trimmed from both its ends.
pub fn crate_name_in_trimmed(s: &Vec<char>, from: usize, to: usize) -> (name: Option<String>)
    requires
        from <= to <= s.len(),
    ensures
        match name {
            Some(n) => crate_name(trimmed(s@.subrange(from as int, to as int))) == Some(n@),
            None => crate_name(trimmed(s@.subrange(from as int, to as int))).is_none(),
        },
{
    let part = crate::text::slice_of(s, from, to);
    let start = skip_in(&part, CharClass::Space, 0);
    let end = trim_end_in(&part, CharClass::Space, part.len());
    if start <= end {
        crate_name_in(&part, start, end)
    } else {
        assert(part@.subrange(0, 0) == Seq::<char>::empty());
        crate_name_in(&part, 0, 0)
    }
}

/// The identity that a package id stands for: `"serde_json v1.0.64 (registry+…)"`
/// gives `"serde-json 1.0.64"`. `None` where the id holds no version.
pub fn crate_name_from_package_id(pkg_id: &str) -> (name: Option<String>)
    ensures
        match name {
            Some(n) => crate_name(pkg_id@) == Some(n@),
            None => crate_name(pkg_id@).is_none(),
        },
{
    let chars = chars_of(pkg_id);
    assert(chars@.subrange(0, chars.len() as int) == chars@);
    crate_name_in(&chars, 0, chars.len())
}

} // verus!
