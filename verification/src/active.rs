//! What a listing of the build tool's processes tells: the process id of the
//! build tool itself, and the components that its child processes compile.

use vstd::prelude::*;
use crate::identity::{dashed, trimmed};
use crate::name_set::NameSet;
use crate::parse_cargo_tree_output::{line_at, lines_from};
use crate::text::{
    chars_of, decimal, find_class, find_in, is_digit, lemma_find_class_bounds,
    lemma_skip_class_bounds, push_char, read_decimal, skip_class, skip_in, slice_of, trim_end_in,
    CharClass,
};

verus! {

/// The component that a process compiles, as its command line from index `i`
/// on names it: the field that follows the first field `--crate-name`, with
/// hyphens for underscores. Fields are what white space separates.
pub open spec fn named_crate(line: Seq<char>, i: int) -> Option<Seq<char>>
    decreases line.len() - i,
    via named_crate_decreases
{
    let start = skip_class(line, CharClass::Space, i);
    if i < 0 || start >= line.len() {
        None
    } else {
        let end = find_class(line, CharClass::Space, start);
        if line.subrange(start, end) == "--crate-name"@ {
            let next = skip_class(line, CharClass::Space, end);
            if next >= line.len() {
                None
            } else {
                Some(dashed(line.subrange(next, find_class(line, CharClass::Space, next))))
            }
        } else {
            named_crate(line, end)
        }
    }
}

#[via_fn]
proof fn named_crate_decreases(line: Seq<char>, i: int) {
    if 0 <= i <= line.len() {
        lemma_skip_class_bounds(line, CharClass::Space, i);
        let start = skip_class(line, CharClass::Space, i);
        if start < line.len() {
            lemma_find_class_bounds(line, CharClass::Space, start + 1);
        }
    }
}

/// The components that the processes of `lines` compile.
pub open spec fn named_crates(lines: Seq<Seq<char>>) -> Set<Seq<char>>
    decreases lines.len(),
{
    if lines.len() == 0 {
        Set::empty()
    } else {
        match named_crate(lines.last(), 0) {
            Some(name) => named_crates(lines.drop_last()).insert(name),
            None => named_crates(lines.drop_last()),
        }
    }
}

fn same_range(s: &Vec<char>, from: usize, to: usize, pattern: &Vec<char>) -> (same: bool)
    requires
        from <= to <= s.len(),
    ensures
        same == (s@.subrange(from as int, to as int) == pattern@),
{
    if to - from != pattern.len() {
        return false;
    }
    let mut i: usize = 0;
    while i < pattern.len()
        invariant
            from <= to <= s.len(),
            to - from == pattern.len(),
            i <= pattern.len(),
            forall|j: int| 0 <= j < i ==> s@[from + j] == pattern@[j],
        decreases pattern.len() - i,
    {
        if s[from + i] != pattern[i] {
            assert(s@.subrange(from as int, to as int)[i as int] != pattern@[i as int]);
            return false;
        }
        i += 1;
    }
    assert(s@.subrange(from as int, to as int) == pattern@);
    true
}

/// The component that the command line `line` names.
fn crate_of_line(line: &Vec<char>) -> (name: Option<String>)
    ensures
        match name {
            Some(n) => named_crate(line@, 0) == Some(n@),
            None => named_crate(line@, 0).is_none(),
        },
{
    let flag = chars_of("--crate-name");
    let mut i: usize = 0;
    loop
        invariant
            i <= line.len(),
            flag@ == "--crate-name"@,
            named_crate(line@, 0) == named_crate(line@, i as int),
        decreases line.len() - i,
    {
        let start = skip_in(line, CharClass::Space, i);
        if start >= line.len() {
            return None;
        }
        let end = find_in(line, CharClass::Space, start);
        proof {
            lemma_find_class_bounds(line@, CharClass::Space, start + 1);
        }
        if same_range(line, start, end, &flag) {
            let next = skip_in(line, CharClass::Space, end);
            if next >= line.len() {
                return None;
            }
            let stop = find_in(line, CharClass::Space, next);
            let mut out = String::new();
            let mut k: usize = next;
            while k < stop
                invariant
                    next <= k <= stop <= line.len(),
                    out@ == dashed(line@.subrange(next as int, k as int)),
                decreases stop - k,
            {
                let c = line[k];
                push_char(&mut out, if c == '_' { '-' } else { c });
                k += 1;
            }
            return Some(out);
        }
        i = end;
    }
}

/// The components that the build tool's child processes compile, read from
/// the listing of their command lines, one process to a line.
pub fn get_children(listing: &str) -> (crates: NameSet)
    ensures
        crates@ == named_crates(lines_from(listing@, 0)),
{
    let s = chars_of(listing);
    let mut crates = NameSet::new();
    let mut start: usize = 0;
    let ghost mut done: Seq<Seq<char>> = Seq::empty();
    assert(done + lines_from(s@, 0) == lines_from(s@, 0));
    while start < s.len()
        invariant
            start <= s.len(),
            s@ == listing@,
            lines_from(s@, 0) == done + lines_from(s@, start as int),
            crates@ == named_crates(done),
        decreases s.len() - start,
    {
        let feed = find_in(&s, CharClass::Exactly('\n'), start);
        let end = if start < feed && feed < s.len() && s[feed - 1] == '\r' {
            feed - 1
        } else {
            feed
        };
        let ghost line = line_at(s@, start as int);
        proof {
            assert(lines_from(s@, start as int) == seq![line] + lines_from(s@, feed + 1));
            assert(done + (seq![line] + lines_from(s@, feed + 1)) == done.push(line) + lines_from(
                s@,
                feed + 1,
            ));
            assert(done.push(line).drop_last() == done);
        }
        let text = slice_of(&s, start, end);
        match crate_of_line(&text) {
            Some(name) => {
                crates.insert(name);
            },
            None => {},
        }
        proof {
            done = done.push(line);
        }
        start = if feed < s.len() { feed + 1 } else { feed };
    }
    assert(done + lines_from(s@, start as int) == done);
    crates
}

/// Whether `s` is made of digits.
pub open spec fn all_digits(s: Seq<char>) -> bool {
    forall|i: int| 0 <= i < s.len() ==> is_digit(#[trigger] s[i])
}

/// The process id that `text` writes: after trimming, an optional plus sign
/// and at least one digit, nothing else, and a number that fits the
/// machine's word.
pub open spec fn pid_in(text: Seq<char>) -> Option<usize> {
    let t = trimmed(text);
    let digits = if t.len() > 0 && t[0] == '+' {
        t.skip(1)
    } else {
        t
    };
    if digits.len() > 0 && all_digits(digits) && decimal(digits) <= usize::MAX {
        Some(decimal(digits) as usize)
    } else {
        None
    }
}

/// The process id of the build tool, as the listing of the one process of
/// that name gives it.
pub fn parse_pid(text: &str) -> (pid: Option<usize>)
    ensures
        pid == pid_in(text@),
{
    let s = chars_of(text);
    let from = skip_in(&s, CharClass::Space, 0);
    let to = trim_end_in(&s, CharClass::Space, s.len());
    let t = if from <= to {
        slice_of(&s, from, to)
    } else {
        Vec::new()
    };
    assert(t@ == trimmed(text@));
    let first: usize = if t.len() > 0 && t[0] == '+' {
        1
    } else {
        0
    };
    let ghost digits = t@.skip(first as int);
    let end = skip_in(&t, CharClass::Digit, first);
    if end == first || end < t.len() {
        proof {
            assert(t@.skip(0) == t@);
            if end < t.len() {
                assert(!is_digit(digits[end - first]));
            }
        }
        return None;
    }
    proof {
        assert(t@.subrange(first as int, t.len() as int) == digits);
        assert(t@.skip(0) == t@);
        assert(digits.len() > 0);
        assert forall|i: int| 0 <= i < digits.len() implies is_digit(#[trigger] digits[i]) by {
            assert(is_digit(t@[first + i]));
        }
    }
    assert(all_digits(digits));
    read_decimal(&t, first, t.len())
}

} // verus!
