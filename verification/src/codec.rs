//! The index file format: one line per entry, tokens separated by single
//! spaces. A note line is `n <id> <title> <path> <created> <updated> <w> <h>`
//! with string fields escaped (see [`crate::escape`]), numbers in decimal,
//! and `-` for an absent width or height; the main-window line is
//! `m <width> <height>`. Lines with an unknown tag are skipped, so the file
//! stays readable across additions to the format. Parsing a well-formed
//! aggregate's encoding yields that aggregate exactly.

use crate::escape::{
    lemma_escape_clean, lemma_unescape_escape, spec_escape, spec_unescape, escape, unescape,
};
use crate::num::{
    all_digits, lemma_num_round_trip, spec_digits, spec_value, format_u64, parse_u64, is_digit,
};
use crate::model::{wf, NoteRecord, NoteRecordV, NotesIndex, NotesIndexV, WindowSize};
use crate::registry::NoteError;
use crate::text::{chars_to_string, spec_find, lemma_find_exact, find_char, str_to_chars};
use vstd::prelude::*;

verus! {

/// Token and line separators of the format.
pub open spec fn is_sep(c: char) -> bool {
    c == ' ' || c == '\n'
}

/// First separator position at or after `from`, or the end.
pub open spec fn spec_find_sep(s: Seq<char>, from: int) -> int
    decreases s.len() - from when 0 <= from <= s.len()
{
    if from >= s.len() {
        s.len() as int
    } else if is_sep(s[from]) {
        from
    } else {
        spec_find_sep(s, from + 1)
    }
}

proof fn lemma_find_sep_bounds(s: Seq<char>, from: int)
    requires
        0 <= from <= s.len(),
    ensures
        from <= spec_find_sep(s, from) <= s.len(),
        forall|k: int| from <= k < spec_find_sep(s, from) ==> !is_sep(s[k]),
        spec_find_sep(s, from) < s.len() ==> is_sep(s[spec_find_sep(s, from)]),
    decreases s.len() - from,
{
    if from < s.len() && !is_sep(s[from]) {
        lemma_find_sep_bounds(s, from + 1);
    }
}

proof fn lemma_find_sep_exact(s: Seq<char>, from: int, upto: int)
    requires
        0 <= from <= upto <= s.len(),
        forall|k: int| from <= k < upto ==> !is_sep(s[k]),
        upto < s.len() ==> is_sep(s[upto]),
    ensures
        spec_find_sep(s, from) == upto,
    decreases upto - from,
{
    if from < upto {
        lemma_find_sep_exact(s, from + 1, upto);
    }
}

/// Executable mirror of [`spec_find_sep`].
pub fn find_sep(v: &Vec<char>, from: usize) -> (r: usize)
    requires
        from <= v@.len(),
    ensures
        r == spec_find_sep(v@, from as int),
        from <= r <= v@.len(),
{
    let mut i: usize = from;
    while i < v.len()
        invariant
            from <= i <= v@.len(),
            spec_find_sep(v@, from as int) == spec_find_sep(v@, i as int),
        decreases v@.len() - i,
    {
        if v[i] == ' ' || v[i] == '\n' {
            return i;
        }
        i = i + 1;
    }
    i
}

/// Where the token starting at `pos` ends, and where the next token starts:
/// a space is consumed, a newline or the end is left in place.
pub open spec fn spec_token_end(s: Seq<char>, pos: int) -> int {
    spec_find_sep(s, pos)
}

pub open spec fn spec_after_token(s: Seq<char>, pos: int) -> int {
    let e = spec_find_sep(s, pos);
    if e < s.len() && s[e] == ' ' {
        e + 1
    } else {
        e
    }
}

/// The token starting at `pos`.
pub open spec fn spec_token(s: Seq<char>, pos: int) -> Seq<char> {
    s.subrange(pos, spec_find_sep(s, pos))
}

/// A token written as `tok` followed by a space reads back as exactly `tok`,
/// with the reader landing after the space.
proof fn lemma_token_exact(s: Seq<char>, pos: int, tok: Seq<char>)
    requires
        0 <= pos,
        pos + tok.len() < s.len(),
        forall|k: int| 0 <= k < tok.len() ==> !is_sep(#[trigger] tok[k]),
        s.subrange(pos, pos + tok.len()) == tok,
        s[pos + tok.len()] == ' ',
    ensures
        spec_token(s, pos) == tok,
        spec_token_end(s, pos) == pos + tok.len(),
        spec_after_token(s, pos) == pos + tok.len() + 1,
{
    assert forall|k: int| pos <= k < pos + tok.len() implies !is_sep(s[k]) by {
        assert(s[k] == tok[k - pos]);
    }
    lemma_find_sep_exact(s, pos, pos + tok.len());
}

/// The same for a token followed by a newline (or the end of the file): the
/// reader stays on the newline.
proof fn lemma_token_exact_nl(s: Seq<char>, pos: int, tok: Seq<char>)
    requires
        0 <= pos,
        pos + tok.len() <= s.len(),
        forall|k: int| 0 <= k < tok.len() ==> !is_sep(#[trigger] tok[k]),
        s.subrange(pos, pos + tok.len()) == tok,
        pos + tok.len() < s.len() ==> s[pos + tok.len()] == '\n',
    ensures
        spec_token(s, pos) == tok,
        spec_token_end(s, pos) == pos + tok.len(),
        spec_after_token(s, pos) == pos + tok.len(),
{
    assert forall|k: int| pos <= k < pos + tok.len() implies !is_sep(s[k]) by {
        assert(s[k] == tok[k - pos]);
    }
    lemma_find_sep_exact(s, pos, pos + tok.len());
}

/// Start of the next line: everything up to and including the next newline
/// is consumed.
pub open spec fn spec_skip_line(s: Seq<char>, pos: int) -> int {
    let e = spec_find(s, '\n', pos);
    if e < s.len() {
        e + 1
    } else {
        e
    }
}

/// Executable mirror of [`spec_skip_line`].
pub fn skip_line(v: &Vec<char>, pos: usize) -> (r: usize)
    requires
        pos <= v@.len(),
    ensures
        r == spec_skip_line(v@, pos as int),
        pos <= r <= v@.len(),
        pos < v@.len() ==> r > pos,
{
    let e = find_char(v, '\n', pos);
    proof {
        crate::text::lemma_find_bounds(v@, '\n', pos as int);
    }
    if e < v.len() {
        e + 1
    } else {
        e
    }
}

/// A string field: the token at `pos`, unescaped.
pub open spec fn spec_parse_str_field(s: Seq<char>, pos: int) -> Option<(Seq<char>, int)> {
    match spec_unescape(spec_token(s, pos)) {
        Some(x) => Some((x, spec_after_token(s, pos))),
        None => None,
    }
}

/// A numeric field: the token at `pos` as a decimal number.
pub open spec fn spec_parse_num_field(s: Seq<char>, pos: int) -> Option<(u64, int)> {
    let t = spec_token(s, pos);
    if t.len() > 0 && all_digits(t) && spec_value(t) <= u64::MAX {
        Some((spec_value(t) as u64, spec_after_token(s, pos)))
    } else {
        None
    }
}

/// An optional size field: `-` for absent, else a decimal number that fits
/// in a `u32`.
pub open spec fn spec_parse_opt_field(s: Seq<char>, pos: int) -> Option<(Option<u32>, int)> {
    let t = spec_token(s, pos);
    if t == seq!['-'] {
        Some((None, spec_after_token(s, pos)))
    } else if t.len() > 0 && all_digits(t) && spec_value(t) <= u32::MAX {
        Some((Some(spec_value(t) as u32), spec_after_token(s, pos)))
    } else {
        None
    }
}

/// Executable mirror of [`spec_parse_str_field`].
pub fn parse_str_field(v: &Vec<char>, pos: usize) -> (r: Option<(String, usize)>)
    requires
        pos <= v@.len(),
    ensures
        match r {
            Some(x) => {
                &&& spec_parse_str_field(v@, pos as int) == Some((x.0@, x.1 as int))
                &&& pos <= x.1 <= v@.len()
            },
            None => spec_parse_str_field(v@, pos as int) is None,
        },
{
    let e = find_sep(&v, pos);
    match unescape(v, pos, e) {
        Some(out) => {
            let next = if e < v.len() && v[e] == ' ' {
                e + 1
            } else {
                e
            };
            proof {
                lemma_find_sep_bounds(v@, pos as int);
            }
            Some((chars_to_string(&out), next))
        },
        None => None,
    }
}

/// Executable mirror of [`spec_parse_num_field`].
pub fn parse_num_field(v: &Vec<char>, pos: usize) -> (r: Option<(u64, usize)>)
    requires
        pos <= v@.len(),
    ensures
        match r {
            Some(x) => {
                &&& spec_parse_num_field(v@, pos as int) == Some((x.0, x.1 as int))
                &&& pos <= x.1 <= v@.len()
            },
            None => spec_parse_num_field(v@, pos as int) is None,
        },
{
    let e = find_sep(&v, pos);
    match parse_u64(v, pos, e) {
        Some(n) => {
            let next = if e < v.len() && v[e] == ' ' {
                e + 1
            } else {
                e
            };
            Some((n, next))
        },
        None => None,
    }
}

/// Executable mirror of [`spec_parse_opt_field`].
pub fn parse_opt_field(v: &Vec<char>, pos: usize) -> (r: Option<(Option<u32>, usize)>)
    requires
        pos <= v@.len(),
    ensures
        match r {
            Some(x) => {
                &&& spec_parse_opt_field(v@, pos as int) == Some((x.0, x.1 as int))
                &&& pos <= x.1 <= v@.len()
            },
            None => spec_parse_opt_field(v@, pos as int) is None,
        },
{
    let e = find_sep(&v, pos);
    let next = if e < v.len() && v[e] == ' ' {
        e + 1
    } else {
        e
    };
    if pos < v.len() && v[pos] == '-' && e == pos + 1 {
        proof {
            assert(spec_token(v@, pos as int) =~= seq!['-']);
        }
        return Some((None, next));
    }
    proof {
        let t = spec_token(v@, pos as int);
        if t == seq!['-'] {
            assert(t.len() == 1);
            assert(t[0] == v@[pos as int]);
        }
    }
    match parse_u64(v, pos, e) {
        Some(n) => {
            if n <= u32::MAX as u64 {
                Some((Some(n as u32), next))
            } else {
                proof {
                    let t = spec_token(v@, pos as int);
                    assert(spec_value(t) == n > u32::MAX);
                }
                None
            }
        },
        None => None,
    }
}

/// A note line's fields after the `n ` tag: three escaped strings, two
/// timestamps, the optional width and height, then the rest of the line.
pub open spec fn spec_parse_note(s: Seq<char>, pos: int) -> Option<(NoteRecordV, int)> {
    match spec_parse_str_field(s, pos) {
        None => None,
        Some((id, p1)) => match spec_parse_str_field(s, p1) {
            None => None,
            Some((title, p2)) => match spec_parse_str_field(s, p2) {
                None => None,
                Some((path, p3)) => match spec_parse_num_field(s, p3) {
                    None => None,
                    Some((created, p4)) => match spec_parse_num_field(s, p4) {
                        None => None,
                        Some((updated, p5)) => match spec_parse_opt_field(s, p5) {
                            None => None,
                            Some((width, p6)) => match spec_parse_opt_field(s, p6) {
                                None => None,
                                Some((height, p7)) => Some(
                                    (
                                        NoteRecordV {
                                            id,
                                            title,
                                            file_path: path,
                                            created_at: created,
                                            updated_at: updated,
                                            width,
                                            height,
                                        },
                                        spec_skip_line(s, p7),
                                    ),
                                ),
                            },
                        },
                    },
                },
            },
        },
    }
}

/// A main-window line's fields after the `m ` tag.
pub open spec fn spec_parse_main(s: Seq<char>, pos: int) -> Option<(WindowSize, int)> {
    match spec_parse_num_field(s, pos) {
        None => None,
        Some((w, p1)) => match spec_parse_num_field(s, p1) {
            None => None,
            Some((h, p2)) => {
                if w <= u32::MAX && h <= u32::MAX {
                    Some(
                        (
                            WindowSize { width: w as u32, height: h as u32 },
                            spec_skip_line(s, p2),
                        ),
                    )
                } else {
                    None
                }
            },
        },
    }
}

/// Executable mirror of [`spec_parse_note`].
pub fn parse_note(v: &Vec<char>, pos: usize) -> (r: Option<(NoteRecord, usize)>)
    requires
        pos <= v@.len(),
    ensures
        match r {
            Some(x) => {
                &&& spec_parse_note(v@, pos as int) == Some((x.0@, x.1 as int))
                &&& pos <= x.1 <= v@.len()
            },
            None => spec_parse_note(v@, pos as int) is None,
        },
{
    let (id, p1) = match parse_str_field(v, pos) {
        Some(x) => x,
        None => return None,
    };
    let (title, p2) = match parse_str_field(v, p1) {
        Some(x) => x,
        None => return None,
    };
    let (file_path, p3) = match parse_str_field(v, p2) {
        Some(x) => x,
        None => return None,
    };
    let (created_at, p4) = match parse_num_field(v, p3) {
        Some(x) => x,
        None => return None,
    };
    let (updated_at, p5) = match parse_num_field(v, p4) {
        Some(x) => x,
        None => return None,
    };
    let (width, p6) = match parse_opt_field(v, p5) {
        Some(x) => x,
        None => return None,
    };
    let (height, p7) = match parse_opt_field(v, p6) {
        Some(x) => x,
        None => return None,
    };
    let next = skip_line(v, p7);
    Some((NoteRecord { id, title, file_path, created_at, updated_at, width, height }, next))
}

/// Executable mirror of [`spec_parse_main`].
pub fn parse_main(v: &Vec<char>, pos: usize) -> (r: Option<(WindowSize, usize)>)
    requires
        pos <= v@.len(),
    ensures
        match r {
            Some(x) => {
                &&& spec_parse_main(v@, pos as int) == Some((x.0, x.1 as int))
                &&& pos <= x.1 <= v@.len()
            },
            None => spec_parse_main(v@, pos as int) is None,
        },
{
    let (w, p1) = match parse_num_field(v, pos) {
        Some(x) => x,
        None => return None,
    };
    let (h, p2) = match parse_num_field(v, p1) {
        Some(x) => x,
        None => return None,
    };
    if w <= u32::MAX as u64 && h <= u32::MAX as u64 {
        let next = skip_line(v, p2);
        Some((WindowSize { width: w as u32, height: h as u32 }, next))
    } else {
        None
    }
}

/// How an optional size is written: `-` for absent.
pub open spec fn spec_opt_num(o: Option<u32>) -> Seq<char> {
    match o {
        Some(n) => spec_digits(n as nat),
        None => seq!['-'],
    }
}

/// A note line after its `n ` tag.
pub open spec fn spec_note_body(r: NoteRecordV) -> Seq<char> {
    spec_escape(r.id) + seq![' '] + spec_escape(r.title) + seq![' '] + spec_escape(r.file_path)
        + seq![' '] + spec_digits(r.created_at as nat) + seq![' '] + spec_digits(
        r.updated_at as nat,
    ) + seq![' '] + spec_opt_num(r.width) + seq![' '] + spec_opt_num(r.height) + seq!['\n']
}

pub open spec fn spec_note_line(r: NoteRecordV) -> Seq<char> {
    seq!['n', ' '] + spec_note_body(r)
}

pub open spec fn spec_main_line(w: WindowSize) -> Seq<char> {
    seq!['m', ' '] + spec_digits(w.width as nat) + seq![' '] + spec_digits(w.height as nat)
        + seq!['\n']
}

pub open spec fn spec_encode_notes(notes: Seq<NoteRecordV>) -> Seq<char>
    decreases notes.len(),
{
    if notes.len() == 0 {
        Seq::empty()
    } else {
        spec_note_line(notes[0]) + spec_encode_notes(notes.skip(1))
    }
}

/// The fixed first line of every index file; content that does not start
/// with it is not an index file and counts as corrupt.
pub open spec fn spec_header() -> Seq<char> {
    "stickymd 1\n"@
}

/// The whole file: the header, the main-window line when there is one, then
/// one line per note in index order.
pub open spec fn spec_encode(v: NotesIndexV) -> Seq<char> {
    spec_header() + (match v.main_window {
        Some(w) => spec_main_line(w),
        None => Seq::empty(),
    }) + spec_encode_notes(v.notes)
}

/// Appends an escaped string field and its separating space.
fn push_str_field(out: &mut Vec<char>, field: &String)
    ensures
        final(out)@ == old(out)@ + spec_escape(field@) + seq![' '],
{
    let chars = str_to_chars(field.as_str());
    let mut escaped = escape(&chars);
    out.append(&mut escaped);
    out.push(' ');
    proof {
        assert(final(out)@ =~= old(out)@ + spec_escape(field@) + seq![' ']);
    }
}

/// Appends a decimal field and its separator.
fn push_num_field(out: &mut Vec<char>, n: u64, sep: char)
    ensures
        final(out)@ == old(out)@ + spec_digits(n as nat) + seq![sep],
{
    let mut digits = format_u64(n);
    out.append(&mut digits);
    out.push(sep);
    proof {
        assert(final(out)@ =~= old(out)@ + spec_digits(n as nat) + seq![sep]);
    }
}

/// Appends an optional size field and its separator.
fn push_opt_field(out: &mut Vec<char>, o: Option<u32>, sep: char)
    ensures
        final(out)@ == old(out)@ + spec_opt_num(o) + seq![sep],
{
    match o {
        Some(n) => {
            push_num_field(out, n as u64, sep);
        },
        None => {
            out.push('-');
            out.push(sep);
            proof {
                assert(final(out)@ =~= old(out)@ + spec_opt_num(o) + seq![sep]);
            }
        },
    }
}

/// Appends one note line.
fn push_note_line(out: &mut Vec<char>, rec: &NoteRecord)
    ensures
        final(out)@ == old(out)@ + spec_note_line(rec@),
{
    out.push('n');
    out.push(' ');
    push_str_field(out, &rec.id);
    push_str_field(out, &rec.title);
    push_str_field(out, &rec.file_path);
    push_num_field(out, rec.created_at, ' ');
    push_num_field(out, rec.updated_at, ' ');
    push_opt_field(out, rec.width, ' ');
    push_opt_field(out, rec.height, '\n');
    proof {
        assert(final(out)@ =~= old(out)@ + spec_note_line(rec@));
    }
}

/// Appending one more note's line to an encoding.
proof fn lemma_encode_notes_push(notes: Seq<NoteRecordV>, r: NoteRecordV)
    ensures
        spec_encode_notes(notes.push(r)) == spec_encode_notes(notes) + spec_note_line(r),
    decreases notes.len(),
{
    if notes.len() == 0 {
        assert(notes.push(r)[0] == r);
        assert(notes.push(r).skip(1) =~= Seq::<NoteRecordV>::empty());
        assert(spec_encode_notes(Seq::<NoteRecordV>::empty()) =~= Seq::<char>::empty());
        assert(spec_encode_notes(notes.push(r)) == spec_note_line(r) + spec_encode_notes(
            notes.push(r).skip(1),
        ));
        assert(spec_encode_notes(notes.push(r)) =~= spec_encode_notes(notes) + spec_note_line(r));
    } else {
        lemma_encode_notes_push(notes.skip(1), r);
        assert(notes.push(r)[0] == notes[0]);
        assert(notes.push(r).skip(1) =~= notes.skip(1).push(r));
        assert(spec_encode_notes(notes.push(r)) == spec_note_line(notes[0]) + spec_encode_notes(
            notes.skip(1).push(r),
        ));
        assert(spec_encode_notes(notes.skip(1).push(r)) == spec_encode_notes(notes.skip(1))
            + spec_note_line(r));
        assert(spec_encode_notes(notes) == spec_note_line(notes[0]) + spec_encode_notes(
            notes.skip(1),
        ));
        assert(spec_encode_notes(notes.push(r)) =~= spec_encode_notes(notes) + spec_note_line(r));
    }
}

/// Writes the aggregate in the index file format.
pub fn encode_index(idx: &NotesIndex) -> (r: String)
    ensures
        r@ == spec_encode(idx@),
{
    let mut out: Vec<char> = str_to_chars("stickymd 1\n");
    match idx.main_window {
        Some(w) => {
            out.push('m');
            out.push(' ');
            push_num_field(&mut out, w.width as u64, ' ');
            push_num_field(&mut out, w.height as u64, '\n');
            proof {
                assert(out@ =~= spec_header() + spec_main_line(w));
            }
        },
        None => {},
    }
    let ghost head = out@;
    let mut i: usize = 0;
    proof {
        assert(idx@.notes.subrange(0, 0) =~= Seq::<NoteRecordV>::empty());
        assert(spec_encode_notes(idx@.notes.subrange(0, 0)) =~= Seq::<char>::empty());
        assert(out@ =~= head + spec_encode_notes(idx@.notes.subrange(0, 0)));
    }
    while i < idx.notes.len()
        invariant
            i <= idx.notes@.len(),
            idx@.notes.len() == idx.notes@.len(),
            out@ == head + spec_encode_notes(idx@.notes.subrange(0, i as int)),
        decreases idx.notes@.len() - i,
    {
        push_note_line(&mut out, &idx.notes[i]);
        proof {
            lemma_encode_notes_push(idx@.notes.subrange(0, i as int), idx@.notes[i as int]);
            assert(idx@.notes.subrange(0, i + 1 as int) =~= idx@.notes.subrange(0, i as int).push(
                idx@.notes[i as int],
            ));
            assert(out@ =~= head + spec_encode_notes(idx@.notes.subrange(0, i + 1 as int)));
        }
        i = i + 1;
    }
    proof {
        assert(idx@.notes.subrange(0, idx@.notes.len() as int) =~= idx@.notes);
        if idx@.main_window is None {
            assert(head =~= spec_header() + Seq::<char>::empty());
            assert(out@ =~= spec_encode(idx@));
        } else {
            assert(out@ =~= spec_encode(idx@));
        }
    }
    chars_to_string(&out)
}

/// The empty aggregate that parsing starts from.
pub open spec fn empty_acc() -> NotesIndexV {
    NotesIndexV { notes: Seq::empty(), main_window: None }
}

/// Reads the file line by line from `pos`, collecting note records and the
/// last main-window line into `acc`. A malformed `n` or `m` line fails the
/// whole parse; a line with any other tag is skipped.
pub open spec fn spec_parse_from(s: Seq<char>, pos: int, acc: NotesIndexV) -> Option<NotesIndexV>
    decreases s.len() - pos when 0 <= pos <= s.len()
{
    if pos >= s.len() {
        Some(acc)
    } else {
        let tag = spec_token(s, pos);
        let p1 = spec_after_token(s, pos);
        if tag == seq!['n'] {
            match spec_parse_note(s, p1) {
                Some((rec, p2)) => {
                    if pos < p2 <= s.len() {
                        spec_parse_from(
                            s,
                            p2,
                            NotesIndexV { notes: acc.notes.push(rec), main_window: acc.main_window },
                        )
                    } else {
                        None
                    }
                },
                None => None,
            }
        } else if tag == seq!['m'] {
            match spec_parse_main(s, p1) {
                Some((w, p2)) => {
                    if pos < p2 <= s.len() {
                        spec_parse_from(
                            s,
                            p2,
                            NotesIndexV { notes: acc.notes, main_window: Some(w) },
                        )
                    } else {
                        None
                    }
                },
                None => None,
            }
        } else {
            let p2 = spec_skip_line(s, pos);
            if pos < p2 <= s.len() {
                spec_parse_from(s, p2, acc)
            } else {
                None
            }
        }
    }
}

/// What parsing the whole file yields, before validation: nothing unless
/// the header line is present, then the lines after it.
pub open spec fn spec_parse(s: Seq<char>) -> Option<NotesIndexV> {
    if s.len() >= spec_header().len() && s.subrange(0, spec_header().len() as int)
        == spec_header() {
        spec_parse_from(s, spec_header().len() as int, empty_acc())
    } else {
        None
    }
}

/// What [`decode_index`] returns: the parsed aggregate, provided it is
/// well-formed; anything else counts as corrupt.
pub open spec fn spec_decode(s: Seq<char>) -> Option<NotesIndexV> {
    match spec_parse(s) {
        Some(x) => if wf(x) {
            Some(x)
        } else {
            None
        },
        None => None,
    }
}

/// Whether the aggregate satisfies its invariant; see [`wf`].
pub fn check_wf(idx: &NotesIndex) -> (r: bool)
    ensures
        r == wf(idx@),
{
    let n = idx.notes.len();
    let mut i: usize = 0;
    while i < n
        invariant
            i <= n,
            n == idx@.notes.len(),
            forall|k: int| 0 <= k < i ==> #[trigger] idx@.notes[k].updated_at
                >= idx@.notes[k].created_at,
        decreases n - i,
    {
        if idx.notes[i].updated_at < idx.notes[i].created_at {
            proof {
                assert(idx@.notes[i as int].updated_at < idx@.notes[i as int].created_at);
                assert(!wf(idx@));
            }
            return false;
        }
        i = i + 1;
    }
    let mut a: usize = 0;
    while a < n
        invariant
            a <= n,
            n == idx@.notes.len(),
            forall|k: int| 0 <= k < n ==> #[trigger] idx@.notes[k].updated_at
                >= idx@.notes[k].created_at,
            forall|x: int, y: int|
                0 <= x < y < n && x < a ==> #[trigger] idx@.notes[x].id
                    != #[trigger] idx@.notes[y].id,
            forall|x: int, y: int|
                0 <= x < y < n && x < a ==> #[trigger] idx@.notes[x].file_path
                    != #[trigger] idx@.notes[y].file_path,
        decreases n - a,
    {
        let mut b: usize = a + 1;
        while b < n
            invariant
                a < b <= n,
                a < n,
                n == idx@.notes.len(),
                forall|k: int| 0 <= k < n ==> #[trigger] idx@.notes[k].updated_at
                    >= idx@.notes[k].created_at,
                forall|x: int, y: int|
                    0 <= x < y < n && x < a ==> #[trigger] idx@.notes[x].id
                        != #[trigger] idx@.notes[y].id,
                forall|x: int, y: int|
                    0 <= x < y < n && x < a ==> #[trigger] idx@.notes[x].file_path
                        != #[trigger] idx@.notes[y].file_path,
                forall|y: int|
                    a < y < b ==> idx@.notes[a as int].id != #[trigger] idx@.notes[y].id,
                forall|y: int|
                    a < y < b ==> idx@.notes[a as int].file_path
                        != #[trigger] idx@.notes[y].file_path,
            decreases n - b,
        {
            if crate::text::str_eq(idx.notes[a].id.as_str(), idx.notes[b].id.as_str()) {
                proof {
                    assert(idx@.notes[a as int].id == idx@.notes[b as int].id);
                    assert(!wf(idx@));
                }
                return false;
            }
            if crate::text::str_eq(idx.notes[a].file_path.as_str(), idx.notes[b].file_path.as_str())
            {
                proof {
                    assert(idx@.notes[a as int].file_path == idx@.notes[b as int].file_path);
                    assert(!wf(idx@));
                }
                return false;
            }
            b = b + 1;
        }
        a = a + 1;
    }
    proof {
        assert(wf(idx@));
    }
    true
}

/// Reads an index file's text back into the aggregate. `None` means the
/// content is corrupt: unreadable, or readable but breaking the invariant.
pub fn decode_index(text: &str) -> (r: Option<NotesIndex>)
    ensures
        match r {
            Some(idx) => {
                &&& spec_decode(text@) == Some(idx@)
                &&& wf(idx@)
            },
            None => spec_decode(text@) is None,
        },
{
    let v = str_to_chars(text);
    let hdr = str_to_chars("stickymd 1\n");
    if v.len() < hdr.len() {
        return None;
    }
    let mut k: usize = 0;
    while k < hdr.len()
        invariant
            k <= hdr@.len(),
            hdr@ == "stickymd 1\n"@,
            v@.len() >= hdr@.len(),
            v@ == text@,
            forall|j: int| 0 <= j < k ==> v@[j] == hdr@[j],
        decreases hdr@.len() - k,
    {
        if v[k] != hdr[k] {
            proof {
                assert(v@.subrange(0, hdr@.len() as int)[k as int] == v@[k as int]);
                assert(v@.subrange(0, hdr@.len() as int) != spec_header());
            }
            return None;
        }
        k = k + 1;
    }
    proof {
        assert(v@.subrange(0, hdr@.len() as int) =~= spec_header());
    }
    let mut notes: Vec<NoteRecord> = Vec::new();
    let mut main_window: Option<WindowSize> = None;
    let mut pos: usize = hdr.len();
    let ghost f = |n: NoteRecord| n@;
    proof {
        assert(notes@.map_values(f) =~= Seq::<NoteRecordV>::empty());
        assert(NotesIndexV { notes: notes@.map_values(f), main_window } =~= empty_acc());
    }
    while pos < v.len()
        invariant
            pos <= v@.len(),
            v@ == text@,
            f == (|n: NoteRecord| n@),
            spec_parse(v@) == spec_parse_from(
                v@,
                pos as int,
                NotesIndexV { notes: notes@.map_values(f), main_window },
            ),
        decreases v@.len() - pos,
    {
        let ghost cur = NotesIndexV { notes: notes@.map_values(f), main_window };
        let e = find_sep(&v, pos);
        let ghost tag = spec_token(v@, pos as int);
        let p1 = if e < v.len() && v[e] == ' ' {
            e + 1
        } else {
            e
        };
        if e == pos + 1 && v[pos] == 'n' {
            proof {
                assert(tag =~= seq!['n']);
            }
            match parse_note(&v, p1) {
                Some((rec, p2)) => {
                    let ghost recv = rec@;
                    proof {
                        assert(p2 > pos);
                        let pushed = NotesIndexV {
                            notes: cur.notes.push(recv),
                            main_window: cur.main_window,
                        };
                        assert(spec_parse_from(v@, pos as int, cur) == spec_parse_from(
                            v@,
                            p2 as int,
                            pushed,
                        ));
                    }
                    notes.push(rec);
                    proof {
                        assert(notes@.map_values(f) =~= cur.notes.push(recv));
                    }
                    pos = p2;
                },
                None => {
                    proof {
                        assert(spec_parse_from(v@, pos as int, cur) is None);
                    }
                    return None;
                },
            }
        } else if e == pos + 1 && v[pos] == 'm' {
            proof {
                assert(tag =~= seq!['m']);
                assert(tag != seq!['n']) by {
                    assert(tag[0] == 'm');
                }
            }
            match parse_main(&v, p1) {
                Some((w, p2)) => {
                    proof {
                        assert(p2 > pos);
                        let updated = NotesIndexV { notes: cur.notes, main_window: Some(w) };
                        assert(spec_parse_from(v@, pos as int, cur) == spec_parse_from(
                            v@,
                            p2 as int,
                            updated,
                        ));
                    }
                    main_window = Some(w);
                    pos = p2;
                },
                None => {
                    proof {
                        assert(spec_parse_from(v@, pos as int, cur) is None);
                    }
                    return None;
                },
            }
        } else {
            proof {
                lemma_find_sep_bounds(v@, pos as int);
                assert(tag != seq!['n'] && tag != seq!['m']) by {
                    assert(tag =~= v@.subrange(pos as int, e as int));
                    if tag == seq!['n'] || tag == seq!['m'] {
                        assert(tag.len() == 1);
                        assert(tag[0] == v@[pos as int]);
                    }
                }
            }
            let p2 = skip_line(&v, pos);
            proof {
                assert(spec_parse_from(v@, pos as int, cur) == spec_parse_from(v@, p2 as int, cur));
            }
            pos = p2;
        }
    }
    let cand = NotesIndex { notes, main_window };
    proof {
        assert(spec_parse(v@) == Some(cand@));
    }
    if check_wf(&cand) {
        Some(cand)
    } else {
        None
    }
}

/// What loading yields for given file content: no file means a fresh empty
/// index; corrupt content means a fresh empty index and the corruption
/// surfaced as a warning value, never as a failure.
pub fn load_index(content: Option<&str>) -> (r: (NotesIndex, Option<NoteError>))
    ensures
        wf(r.0@),
        match content {
            None => {
                &&& r.0@.notes.len() == 0
                &&& r.0@.main_window is None
                &&& r.1 is None
            },
            Some(t) => match spec_decode(t@) {
                Some(x) => r.0@ == x && r.1 is None,
                None => {
                    &&& r.0@.notes.len() == 0
                    &&& r.0@.main_window is None
                    &&& r.1 == Some(NoteError::CorruptIndex)
                },
            },
        },
{
    match content {
        None => (NotesIndex::empty(), None),
        Some(t) => match decode_index(t) {
            Some(idx) => (idx, None),
            None => (NotesIndex::empty(), Some(NoteError::CorruptIndex)),
        },
    }
}

/// A range of `s` equal to a concatenation splits into its two parts.
proof fn lemma_add_subranges(s: Seq<char>, pos: int, a: Seq<char>, b: Seq<char>)
    requires
        0 <= pos,
        pos + a.len() + b.len() <= s.len(),
        s.subrange(pos, pos + a.len() + b.len()) == a + b,
    ensures
        s.subrange(pos, pos + a.len()) == a,
        s.subrange(pos + a.len(), pos + a.len() + b.len()) == b,
{
    let whole = s.subrange(pos, pos + a.len() + b.len());
    assert(s.subrange(pos, pos + a.len()) =~= a) by {
        assert forall|k: int| 0 <= k < a.len() implies s[pos + k] == a[k] by {
            assert(whole[k] == s[pos + k]);
            assert((a + b)[k] == a[k]);
        }
    }
    assert(s.subrange(pos + a.len(), pos + a.len() + b.len()) =~= b) by {
        assert forall|k: int| 0 <= k < b.len() implies s[pos + a.len() + k] == b[k] by {
            assert(whole[a.len() + k] == s[pos + a.len() + k]);
            assert((a + b)[a.len() + k] == b[k]);
        }
    }
}

/// The single character of a length-one range.
proof fn lemma_char_at(s: Seq<char>, pos: int, c: char)
    requires
        0 <= pos,
        pos + 1 <= s.len(),
        s.subrange(pos, pos + 1) == seq![c],
    ensures
        s[pos] == c,
{
    assert(s.subrange(pos, pos + 1)[0] == s[pos]);
}

/// A digit is not a separator.
proof fn lemma_digits_not_sep(t: Seq<char>)
    requires
        all_digits(t),
    ensures
        forall|k: int| 0 <= k < t.len() ==> !is_sep(#[trigger] t[k]),
{
    assert forall|k: int| 0 <= k < t.len() implies !is_sep(#[trigger] t[k]) by {
        assert(is_digit(t[k]));
    }
}

/// An escaped string followed by a space reads back as the string.
proof fn lemma_str_field_exact(s: Seq<char>, pos: int, field: Seq<char>)
    requires
        0 <= pos,
        pos + spec_escape(field).len() < s.len(),
        s.subrange(pos, pos + spec_escape(field).len()) == spec_escape(field),
        s[pos + spec_escape(field).len()] == ' ',
    ensures
        spec_parse_str_field(s, pos) == Some((field, pos + spec_escape(field).len() + 1)),
{
    let e = spec_escape(field);
    lemma_escape_clean(field);
    assert forall|k: int| 0 <= k < e.len() implies !is_sep(#[trigger] e[k]) by {
        assert(e[k] != '\n' && e[k] != ' ');
    }
    lemma_token_exact(s, pos, e);
    lemma_unescape_escape(field);
}

/// A number followed by a space reads back as the number.
proof fn lemma_num_field_exact(s: Seq<char>, pos: int, n: u64)
    requires
        0 <= pos,
        pos + spec_digits(n as nat).len() < s.len(),
        s.subrange(pos, pos + spec_digits(n as nat).len()) == spec_digits(n as nat),
        s[pos + spec_digits(n as nat).len()] == ' ',
    ensures
        spec_parse_num_field(s, pos) == Some((n, pos + spec_digits(n as nat).len() + 1)),
{
    let d = spec_digits(n as nat);
    lemma_num_round_trip(n);
    lemma_digits_not_sep(d);
    lemma_token_exact(s, pos, d);
}

/// An optional size followed by a space reads back as written.
proof fn lemma_opt_field_exact(s: Seq<char>, pos: int, o: Option<u32>)
    requires
        0 <= pos,
        pos + spec_opt_num(o).len() < s.len(),
        s.subrange(pos, pos + spec_opt_num(o).len()) == spec_opt_num(o),
        s[pos + spec_opt_num(o).len()] == ' ',
    ensures
        spec_parse_opt_field(s, pos) == Some((o, pos + spec_opt_num(o).len() + 1)),
{
    let t = spec_opt_num(o);
    match o {
        None => {
            assert(!is_sep('-'));
            assert(forall|k: int| 0 <= k < t.len() ==> !is_sep(#[trigger] t[k]));
            lemma_token_exact(s, pos, t);
        },
        Some(n) => {
            lemma_num_round_trip(n as u64);
            lemma_digits_not_sep(t);
            lemma_token_exact(s, pos, t);
            assert(spec_token(s, pos) != seq!['-']) by {
                if spec_token(s, pos) == seq!['-'] {
                    assert(t[0] == '-');
                    assert(is_digit(t[0]));
                }
            }
        },
    }
}

/// An optional size at the end of a line reads back as written; the reader
/// stays on the newline.
proof fn lemma_opt_field_exact_nl(s: Seq<char>, pos: int, o: Option<u32>)
    requires
        0 <= pos,
        pos + spec_opt_num(o).len() <= s.len(),
        s.subrange(pos, pos + spec_opt_num(o).len()) == spec_opt_num(o),
        pos + spec_opt_num(o).len() < s.len() ==> s[pos + spec_opt_num(o).len()] == '\n',
    ensures
        spec_parse_opt_field(s, pos) == Some((o, pos + spec_opt_num(o).len())),
{
    let t = spec_opt_num(o);
    match o {
        None => {
            assert(!is_sep('-'));
            assert(forall|k: int| 0 <= k < t.len() ==> !is_sep(#[trigger] t[k]));
            lemma_token_exact_nl(s, pos, t);
        },
        Some(n) => {
            lemma_num_round_trip(n as u64);
            lemma_digits_not_sep(t);
            lemma_token_exact_nl(s, pos, t);
            assert(spec_token(s, pos) != seq!['-']) by {
                if spec_token(s, pos) == seq!['-'] {
                    assert(t[0] == '-');
                    assert(is_digit(t[0]));
                }
            }
        },
    }
}

/// A written note body parses back to exactly its record, the reader landing
/// after the line's newline.
#[verifier::rlimit(100)]
proof fn lemma_parse_note_body(s: Seq<char>, pos: int, r: NoteRecordV)
    requires
        0 <= pos,
        pos + spec_note_body(r).len() <= s.len(),
        s.subrange(pos, pos + spec_note_body(r).len()) == spec_note_body(r),
    ensures
        spec_parse_note(s, pos) == Some((r, pos + spec_note_body(r).len())),
{
    let body = spec_note_body(r);
    let sp = seq![' '];
    let nl = seq!['\n'];
    let t1 = spec_escape(r.id);
    let t2 = spec_escape(r.title);
    let t3 = spec_escape(r.file_path);
    let t4 = spec_digits(r.created_at as nat);
    let t5 = spec_digits(r.updated_at as nat);
    let t6 = spec_opt_num(r.width);
    let t7 = spec_opt_num(r.height);
    let c2 = t1 + sp;
    let c3 = t1 + sp + t2;
    let c4 = t1 + sp + t2 + sp;
    let c5 = t1 + sp + t2 + sp + t3;
    let c6 = t1 + sp + t2 + sp + t3 + sp;
    let c7 = t1 + sp + t2 + sp + t3 + sp + t4;
    let c8 = t1 + sp + t2 + sp + t3 + sp + t4 + sp;
    let c9 = t1 + sp + t2 + sp + t3 + sp + t4 + sp + t5;
    let c10 = t1 + sp + t2 + sp + t3 + sp + t4 + sp + t5 + sp;
    let c11 = t1 + sp + t2 + sp + t3 + sp + t4 + sp + t5 + sp + t6;
    let c12 = t1 + sp + t2 + sp + t3 + sp + t4 + sp + t5 + sp + t6 + sp;
    let c13 = t1 + sp + t2 + sp + t3 + sp + t4 + sp + t5 + sp + t6 + sp + t7;
    lemma_add_subranges(s, pos, c13, nl);
    lemma_add_subranges(s, pos, c12, t7);
    lemma_add_subranges(s, pos, c11, sp);
    lemma_add_subranges(s, pos, c10, t6);
    lemma_add_subranges(s, pos, c9, sp);
    lemma_add_subranges(s, pos, c8, t5);
    lemma_add_subranges(s, pos, c7, sp);
    lemma_add_subranges(s, pos, c6, t4);
    lemma_add_subranges(s, pos, c5, sp);
    lemma_add_subranges(s, pos, c4, t3);
    lemma_add_subranges(s, pos, c3, sp);
    lemma_add_subranges(s, pos, c2, t2);
    lemma_add_subranges(s, pos, t1, sp);
    lemma_char_at(s, pos + t1.len(), ' ');
    lemma_char_at(s, pos + c3.len(), ' ');
    lemma_char_at(s, pos + c5.len(), ' ');
    lemma_char_at(s, pos + c7.len(), ' ');
    lemma_char_at(s, pos + c9.len(), ' ');
    lemma_char_at(s, pos + c11.len(), ' ');
    lemma_char_at(s, pos + c13.len(), '\n');
    let a1 = pos;
    let a2 = pos + c2.len();
    let a3 = pos + c4.len();
    let a4 = pos + c6.len();
    let a5 = pos + c8.len();
    let a6 = pos + c10.len();
    let a7 = pos + c12.len();
    let end = pos + c13.len();
    assert(pos + body.len() == end + 1);
    lemma_str_field_exact(s, a1, r.id);
    lemma_str_field_exact(s, a2, r.title);
    lemma_str_field_exact(s, a3, r.file_path);
    lemma_num_field_exact(s, a4, r.created_at);
    lemma_num_field_exact(s, a5, r.updated_at);
    lemma_opt_field_exact(s, a6, r.width);
    lemma_opt_field_exact_nl(s, a7, r.height);
    lemma_find_exact(s, '\n', end, end);
    assert(spec_skip_line(s, end) == end + 1);
    let parsed = NoteRecordV {
        id: r.id,
        title: r.title,
        file_path: r.file_path,
        created_at: r.created_at,
        updated_at: r.updated_at,
        width: r.width,
        height: r.height,
    };
    assert(parsed =~= r);
}

/// The main-window line after its `m ` tag.
pub open spec fn spec_main_body(w: WindowSize) -> Seq<char> {
    spec_digits(w.width as nat) + seq![' '] + spec_digits(w.height as nat) + seq!['\n']
}

/// A written main-window body parses back to exactly its size.
proof fn lemma_parse_main_body(s: Seq<char>, pos: int, w: WindowSize)
    requires
        0 <= pos,
        pos + spec_main_body(w).len() <= s.len(),
        s.subrange(pos, pos + spec_main_body(w).len()) == spec_main_body(w),
    ensures
        spec_parse_main(s, pos) == Some((w, pos + spec_main_body(w).len())),
{
    let body = spec_main_body(w);
    let sp = seq![' '];
    let nl = seq!['\n'];
    let t1 = spec_digits(w.width as nat);
    let t2 = spec_digits(w.height as nat);
    let c2 = t1 + sp;
    let c3 = t1 + sp + t2;
    lemma_add_subranges(s, pos, c3, nl);
    lemma_add_subranges(s, pos, c2, t2);
    lemma_add_subranges(s, pos, t1, sp);
    lemma_char_at(s, pos + t1.len(), ' ');
    lemma_char_at(s, pos + c3.len(), '\n');
    let a2 = pos + c2.len();
    let end = pos + c3.len();
    assert(pos + body.len() == end + 1);
    lemma_num_field_exact(s, pos, w.width as u64);
    lemma_num_round_trip(w.height as u64);
    lemma_digits_not_sep(t2);
    lemma_token_exact_nl(s, a2, t2);
    lemma_find_exact(s, '\n', end, end);
    assert(spec_skip_line(s, end) == end + 1);
}

/// From a position where the rest of the file is exactly the encoding of
/// `rest`, parsing consumes it all and appends `rest` to the accumulator.
#[verifier::rlimit(100)]
proof fn lemma_parse_from_suffix(s: Seq<char>, pos: int, acc: NotesIndexV, rest: Seq<NoteRecordV>)
    requires
        0 <= pos <= s.len(),
        s.subrange(pos, s.len() as int) == spec_encode_notes(rest),
    ensures
        spec_parse_from(s, pos, acc) == Some(
            NotesIndexV { notes: acc.notes + rest, main_window: acc.main_window },
        ),
    decreases rest.len(),
{
    if rest.len() == 0 {
        assert(spec_encode_notes(rest).len() == 0);
        assert(pos == s.len());
        assert(acc.notes + rest =~= acc.notes);
        assert(NotesIndexV { notes: acc.notes + rest, main_window: acc.main_window } =~= acc);
    } else {
        let r0 = rest[0];
        let body = spec_note_body(r0);
        let line = spec_note_line(r0);
        let tail = spec_encode_notes(rest.skip(1));
        assert(spec_encode_notes(rest) == line + tail);
        assert(line.len() == body.len() + 2);
        assert(pos + line.len() + tail.len() == s.len());
        lemma_add_subranges(s, pos, line, tail);
        lemma_add_subranges(s, pos, seq!['n', ' '], body);
        assert(s[pos] == 'n') by {
            assert(s.subrange(pos, pos + 2)[0] == s[pos]);
        }
        assert(s[pos + 1] == ' ') by {
            assert(s.subrange(pos, pos + 2)[1] == s[pos + 1]);
        }
        assert(pos + 1 < s.len());
        assert(s.subrange(pos, pos + 1) =~= seq!['n']);
        assert(!is_sep('n'));
        assert(forall|k: int| 0 <= k < 1 ==> !is_sep(#[trigger] seq!['n'][k]));
        lemma_token_exact(s, pos, seq!['n']);
        assert(spec_token(s, pos) == seq!['n']);
        let p1 = pos + 2;
        lemma_parse_note_body(s, p1, r0);
        let p2 = p1 + body.len();
        assert(pos < p2 <= s.len());
        let acc2 = NotesIndexV { notes: acc.notes.push(r0), main_window: acc.main_window };
        assert(s.subrange(p2, s.len() as int) =~= tail);
        lemma_parse_from_suffix(s, p2, acc2, rest.skip(1));
        assert(acc.notes.push(r0) + rest.skip(1) =~= acc.notes + rest);
        assert(NotesIndexV { notes: acc2.notes + rest.skip(1), main_window: acc2.main_window }
            =~= NotesIndexV { notes: acc.notes + rest, main_window: acc.main_window });
        assert(spec_parse_from(s, pos, acc) == spec_parse_from(s, p2, acc2));
    }
}

/// Parsing an encoded aggregate yields the aggregate.
proof fn lemma_parse_encode(v: NotesIndexV)
    ensures
        spec_parse(spec_encode(v)) == Some(v),
{
    let s = spec_encode(v);
    let hd = spec_header();
    let mainpart = match v.main_window {
        Some(w) => spec_main_line(w),
        None => Seq::<char>::empty(),
    };
    let notespart = spec_encode_notes(v.notes);
    assert(s =~= hd + (mainpart + notespart));
    assert(s.subrange(0, s.len() as int) =~= s);
    lemma_add_subranges(s, 0, hd, mainpart + notespart);
    assert(s.len() >= hd.len());
    let base = hd.len() as int;
    match v.main_window {
        None => {
            assert(mainpart + notespart =~= notespart);
            assert(s.subrange(base, s.len() as int) == notespart);
            lemma_parse_from_suffix(s, base, empty_acc(), v.notes);
            assert(NotesIndexV {
                notes: empty_acc().notes + v.notes,
                main_window: empty_acc().main_window,
            } =~= v);
        },
        Some(w) => {
            let mline = spec_main_line(w);
            let mbody = spec_main_body(w);
            assert(mline == seq!['m', ' '] + mbody);
            lemma_add_subranges(s, base, mline, notespart);
            lemma_add_subranges(s, base, seq!['m', ' '], mbody);
            assert(s[base] == 'm') by {
                assert(s.subrange(base, base + 2)[0] == s[base]);
            }
            assert(s[base + 1] == ' ') by {
                assert(s.subrange(base, base + 2)[1] == s[base + 1]);
            }
            assert(base + 1 < s.len());
            assert(s.subrange(base, base + 1) =~= seq!['m']);
            assert(!is_sep('m'));
            assert(forall|k: int| 0 <= k < 1 ==> !is_sep(#[trigger] seq!['m'][k]));
            lemma_token_exact(s, base, seq!['m']);
            assert(spec_token(s, base) == seq!['m']);
            assert(spec_token(s, base) != seq!['n']) by {
                assert(spec_token(s, base)[0] == 'm');
            }
            lemma_parse_main_body(s, base + 2, w);
            let p2: int = base + 2 + mbody.len() as int;
            assert(base < p2 <= s.len());
            let acc2 = NotesIndexV { notes: empty_acc().notes, main_window: Some(w) };
            assert(s.subrange(p2, s.len() as int) =~= notespart);
            lemma_parse_from_suffix(s, p2, acc2, v.notes);
            assert(NotesIndexV { notes: acc2.notes + v.notes, main_window: acc2.main_window }
                =~= v);
            assert(spec_parse_from(s, base, empty_acc()) == spec_parse_from(s, p2, acc2));
        },
    }
}

/// Law: the round trip. Saving any well-formed aggregate and loading the
/// result yields an equal aggregate, field for field.
pub proof fn lemma_save_load_round_trip(v: NotesIndexV)
    requires
        wf(v),
    ensures
        spec_decode(spec_encode(v)) == Some(v),
{
    lemma_parse_encode(v);
}

} // verus!
