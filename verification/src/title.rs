//! Title derivation: the display title of a note is its first line of text,
//! with leading markdown heading marks and surrounding whitespace removed,
//! a fixed fallback when nothing is left, and truncation to fifty characters
//! (counted by codepoint, never by byte) with an ellipsis suffix.

use crate::text::{chars_range_to_string, spec_find, str_to_chars};
use vstd::prelude::*;

verus! {

/// Whitespace stripped from around a title.
pub open spec fn is_space(c: char) -> bool {
    c == ' ' || c == '\t' || c == '\r' || c == '\n'
}

/// Text up to (not including) the first newline.
pub open spec fn spec_first_line(s: Seq<char>) -> Seq<char> {
    s.subrange(0, spec_find(s, '\n', 0))
}

/// The sequence without its leading `#` marks.
pub open spec fn spec_drop_hashes(s: Seq<char>) -> Seq<char>
    decreases s.len(),
{
    if s.len() > 0 && s[0] == '#' {
        spec_drop_hashes(s.skip(1))
    } else {
        s
    }
}

pub open spec fn spec_trim_front(s: Seq<char>) -> Seq<char>
    decreases s.len(),
{
    if s.len() > 0 && is_space(s[0]) {
        spec_trim_front(s.skip(1))
    } else {
        s
    }
}

pub open spec fn spec_trim_back(s: Seq<char>) -> Seq<char>
    decreases s.len(),
{
    if s.len() > 0 && is_space(s.last()) {
        spec_trim_back(s.drop_last())
    } else {
        s
    }
}

/// First line, heading marks gone, whitespace trimmed on both sides.
pub open spec fn spec_clean_title(s: Seq<char>) -> Seq<char> {
    spec_trim_back(spec_trim_front(spec_drop_hashes(spec_first_line(s))))
}

/// Number of characters a title may show before it is cut.
pub const TITLE_LIMIT: usize = 50;

/// What [`extract_title`] returns for any content.
pub open spec fn spec_extract_title(s: Seq<char>) -> Seq<char> {
    let t = spec_clean_title(s);
    if t.len() == 0 {
        "Untitled Note"@
    } else if t.len() > TITLE_LIMIT as int {
        t.subrange(0, TITLE_LIMIT as int) + "..."@
    } else {
        t
    }
}

/// Derives a note's display title from the text of its backing file.
pub fn extract_title(content: &str) -> (r: String)
    ensures
        r@ == spec_extract_title(content@),
{
    let v = str_to_chars(content);
    let line_end = crate::text::find_char(&v, '\n', 0);
    let ghost line = v@.subrange(0, line_end as int);

    // Leading `#` marks.
    let mut a: usize = 0;
    while a < line_end && v[a] == '#'
        invariant
            0 <= a <= line_end <= v@.len(),
            line == v@.subrange(0, line_end as int),
            spec_drop_hashes(line) == spec_drop_hashes(v@.subrange(a as int, line_end as int)),
        decreases line_end - a,
    {
        proof {
            let cur = v@.subrange(a as int, line_end as int);
            assert(cur[0] == v@[a as int]);
            assert(cur.skip(1) =~= v@.subrange(a + 1 as int, line_end as int));
        }
        a = a + 1;
    }
    proof {
        let cur = v@.subrange(a as int, line_end as int);
        assert(line.skip(0) =~= line);
        if a < line_end {
            assert(cur[0] == v@[a as int]);
        }
        assert(spec_drop_hashes(cur) == cur);
    }

    // Leading whitespace.
    let ghost hashless = v@.subrange(a as int, line_end as int);
    let mut b: usize = a;
    while b < line_end && is_space_char(v[b])
        invariant
            a <= b <= line_end <= v@.len(),
            hashless == v@.subrange(a as int, line_end as int),
            spec_trim_front(hashless) == spec_trim_front(v@.subrange(b as int, line_end as int)),
        decreases line_end - b,
    {
        proof {
            let cur = v@.subrange(b as int, line_end as int);
            assert(cur[0] == v@[b as int]);
            assert(cur.skip(1) =~= v@.subrange(b + 1 as int, line_end as int));
        }
        b = b + 1;
    }
    proof {
        let cur = v@.subrange(b as int, line_end as int);
        if b < line_end {
            assert(cur[0] == v@[b as int]);
        }
        assert(spec_trim_front(cur) == cur);
    }

    // Trailing whitespace.
    let ghost fronted = v@.subrange(b as int, line_end as int);
    let mut e: usize = line_end;
    while e > b && is_space_char(v[e - 1])
        invariant
            b <= e <= line_end <= v@.len(),
            fronted == v@.subrange(b as int, line_end as int),
            spec_trim_back(fronted) == spec_trim_back(v@.subrange(b as int, e as int)),
        decreases e,
    {
        proof {
            let cur = v@.subrange(b as int, e as int);
            assert(cur.last() == v@[e - 1 as int]);
            assert(cur.drop_last() =~= v@.subrange(b as int, e - 1 as int));
        }
        e = e - 1;
    }
    proof {
        let cur = v@.subrange(b as int, e as int);
        if e > b {
            assert(cur.last() == v@[e - 1 as int]);
        }
        assert(spec_trim_back(cur) == cur);
        assert(v@.subrange(b as int, e as int) == spec_clean_title(content@));
    }

    if e == b {
        let r = String::from_str("Untitled Note");
        return r;
    }
    if e - b > TITLE_LIMIT {
        let mut r = chars_range_to_string(&v, b, b + TITLE_LIMIT);
        proof {
            assert(v@.subrange(b as int, b + TITLE_LIMIT as int) =~= v@.subrange(
                b as int,
                e as int,
            ).subrange(0, TITLE_LIMIT as int));
        }
        r.append("...");
        r
    } else {
        chars_range_to_string(&v, b, e)
    }
}

/// Executable mirror of [`is_space`].
fn is_space_char(c: char) -> (r: bool)
    ensures
        r == is_space(c),
{
    c == ' ' || c == '\t' || c == '\r' || c == '\n'
}

} // verus!
