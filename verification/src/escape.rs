//! Escaping of string fields for the index file. Backslash, newline and
//! space are written as two-character sequences, so an escaped field never
//! holds a token or line separator, and unescaping recovers the original
//! text exactly.

use vstd::prelude::*;

verus! {

/// How one character is written in the file.
pub open spec fn esc_char(c: char) -> Seq<char> {
    if c == '\\' {
        seq!['\\', '\\']
    } else if c == '\n' {
        seq!['\\', 'n']
    } else if c == ' ' {
        seq!['\\', 's']
    } else {
        seq![c]
    }
}

/// The escaped form of a whole string.
pub open spec fn spec_escape(s: Seq<char>) -> Seq<char>
    decreases s.len(),
{
    if s.len() == 0 {
        Seq::empty()
    } else {
        esc_char(s[0]) + spec_escape(s.skip(1))
    }
}

/// The original text of an escaped string, or `None` where a backslash is
/// followed by an unknown character or nothing.
pub open spec fn spec_unescape(s: Seq<char>) -> Option<Seq<char>>
    decreases s.len(),
{
    if s.len() == 0 {
        Some(Seq::empty())
    } else if s[0] == '\\' {
        if s.len() < 2 {
            None
        } else {
            let first = if s[1] == '\\' {
                Some('\\')
            } else if s[1] == 'n' {
                Some('\n')
            } else if s[1] == 's' {
                Some(' ')
            } else {
                None
            };
            match first {
                Some(c) => match spec_unescape(s.skip(2)) {
                    Some(rest) => Some(seq![c] + rest),
                    None => None,
                },
                None => None,
            }
        }
    } else {
        match spec_unescape(s.skip(1)) {
            Some(rest) => Some(seq![s[0]] + rest),
            None => None,
        }
    }
}

/// Free of the separators that the file format gives meaning to.
pub open spec fn clean(s: Seq<char>) -> bool {
    forall|i: int| 0 <= i < s.len() ==> #[trigger] s[i] != '\n' && s[i] != ' '
}

pub proof fn lemma_escape_clean(s: Seq<char>)
    ensures
        clean(spec_escape(s)),
    decreases s.len(),
{
    if s.len() > 0 {
        lemma_escape_clean(s.skip(1));
        let e = spec_escape(s);
        let h = esc_char(s[0]);
        assert forall|i: int| 0 <= i < e.len() implies #[trigger] e[i] != '\n' && e[i] != ' ' by {
            if i < h.len() {
                assert(e[i] == h[i]);
            } else {
                assert(e[i] == spec_escape(s.skip(1))[i - h.len()]);
            }
        }
    }
}

/// Escaping distributes over concatenation.
pub proof fn lemma_escape_add(a: Seq<char>, b: Seq<char>)
    ensures
        spec_escape(a + b) == spec_escape(a) + spec_escape(b),
    decreases a.len(),
{
    if a.len() == 0 {
        assert(a + b =~= b);
        assert(spec_escape(a) + spec_escape(b) =~= spec_escape(b));
    } else {
        lemma_escape_add(a.skip(1), b);
        assert((a + b).skip(1) =~= a.skip(1) + b);
        assert(spec_escape(a + b) =~= spec_escape(a) + spec_escape(b));
    }
}

/// Round trip: unescaping an escaped string yields the string.
pub proof fn lemma_unescape_escape(s: Seq<char>)
    ensures
        spec_unescape(spec_escape(s)) == Some(s),
    decreases s.len(),
{
    if s.len() == 0 {
        assert(spec_escape(s) =~= Seq::<char>::empty());
    } else {
        lemma_unescape_escape(s.skip(1));
        let e = spec_escape(s);
        let h = esc_char(s[0]);
        if s[0] == '\\' || s[0] == '\n' || s[0] == ' ' {
            assert(e.len() >= 2);
            assert(e[0] == '\\');
            assert(e.skip(2) =~= spec_escape(s.skip(1)));
            assert(seq![s[0]] + s.skip(1) =~= s);
        } else {
            assert(e[0] == s[0]);
            assert(e.skip(1) =~= spec_escape(s.skip(1)));
            assert(seq![s[0]] + s.skip(1) =~= s);
        }
    }
}

/// Executable mirror of [`spec_escape`].
pub fn escape(v: &Vec<char>) -> (r: Vec<char>)
    ensures
        r@ == spec_escape(v@),
{
    let mut r: Vec<char> = Vec::new();
    let mut i: usize = 0;
    while i < v.len()
        invariant
            i <= v@.len(),
            r@ == spec_escape(v@.subrange(0, i as int)),
        decreases v@.len() - i,
    {
        let c = v[i];
        if c == '\\' {
            r.push('\\');
            r.push('\\');
        } else if c == '\n' {
            r.push('\\');
            r.push('n');
        } else if c == ' ' {
            r.push('\\');
            r.push('s');
        } else {
            r.push(c);
        }
        proof {
            let pre = v@.subrange(0, i as int);
            let post = v@.subrange(0, i + 1 as int);
            assert(post =~= pre + seq![v@[i as int]]);
            lemma_escape_add(pre, seq![v@[i as int]]);
            assert(seq![v@[i as int]].skip(1) =~= Seq::<char>::empty());
            assert(spec_escape(Seq::<char>::empty()) =~= Seq::<char>::empty());
            assert(spec_escape(seq![v@[i as int]]) =~= esc_char(v@[i as int]));
            assert(r@ =~= spec_escape(post));
        }
        i = i + 1;
    }
    proof {
        assert(v@.subrange(0, v@.len() as int) =~= v@);
    }
    r
}

/// Executable mirror of [`spec_unescape`] on the range `v[from..upto)`.
pub fn unescape(v: &Vec<char>, from: usize, upto: usize) -> (r: Option<Vec<char>>)
    requires
        from <= upto <= v@.len(),
    ensures
        match r {
            Some(out) => spec_unescape(v@.subrange(from as int, upto as int)) == Some(out@),
            None => spec_unescape(v@.subrange(from as int, upto as int)) is None,
        },
{
    let ghost s = v@.subrange(from as int, upto as int);
    let mut out: Vec<char> = Vec::new();
    let mut i: usize = from;
    proof {
        assert(s.skip(0) =~= s);
        match spec_unescape(s) {
            Some(rest) => {
                assert(Seq::<char>::empty() + rest =~= rest);
            },
            None => {},
        }
    }
    while i < upto
        invariant
            from <= i <= upto <= v@.len(),
            s == v@.subrange(from as int, upto as int),
            spec_unescape(s) == (match spec_unescape(s.skip(i - from)) {
                Some(rest) => Some(out@ + rest),
                None => None::<Seq<char>>,
            }),
        decreases upto - i,
    {
        let ghost rem = s.skip(i - from);
        proof {
            assert(rem[0] == v@[i as int]);
        }
        let c = v[i];
        if c == '\\' {
            if i + 1 == upto {
                proof {
                    assert(rem.len() == 1);
                }
                return None;
            }
            proof {
                assert(rem[1] == v@[i + 1 as int]);
                assert(rem.skip(2) =~= s.skip(i + 2 - from));
            }
            let d = v[i + 1];
            let ghost prev = out@;
            if d == '\\' {
                out.push('\\');
            } else if d == 'n' {
                out.push('\n');
            } else if d == 's' {
                out.push(' ');
            } else {
                return None;
            }
            proof {
                let decoded: char = if d == '\\' {
                    '\\'
                } else if d == 'n' {
                    '\n'
                } else {
                    ' '
                };
                assert(out@ =~= prev.push(decoded));
                match spec_unescape(s.skip(i + 2 - from)) {
                    Some(rest) => {
                        assert(prev + (seq![decoded] + rest) =~= out@ + rest);
                    },
                    None => {},
                }
            }
            i = i + 2;
        } else {
            let ghost prev = out@;
            out.push(c);
            proof {
                assert(rem.skip(1) =~= s.skip(i + 1 - from));
                match spec_unescape(s.skip(i + 1 - from)) {
                    Some(rest) => {
                        assert(prev + (seq![c] + rest) =~= out@ + rest);
                    },
                    None => {},
                }
            }
            i = i + 1;
        }
    }
    proof {
        assert(s.skip(upto - from) =~= Seq::<char>::empty());
        assert(out@ + Seq::<char>::empty() =~= out@);
    }
    Some(out)
}

} // verus!
