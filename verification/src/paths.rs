//! Path text helpers: where the file name of a path begins and where its
//! extension starts. The extension is the part after the last dot of the
//! file name, provided that dot is not the name's first character (a name
//! that is nothing but `.ext` has no extension).

use vstd::prelude::*;

verus! {

pub open spec fn is_path_sep(c: char) -> bool {
    c == '/' || c == '\\'
}

/// Index where the final path component (the file name) begins.
pub open spec fn spec_name_start(s: Seq<char>) -> int
    decreases s.len(),
{
    if s.len() == 0 {
        0
    } else if is_path_sep(s.last()) {
        s.len() as int
    } else {
        spec_name_start(s.drop_last())
    }
}

proof fn lemma_name_start_bounds(s: Seq<char>)
    ensures
        0 <= spec_name_start(s) <= s.len(),
        spec_name_start(s) > 0 ==> is_path_sep(s[spec_name_start(s) - 1]),
        forall|k: int| spec_name_start(s) <= k < s.len() ==> !is_path_sep(s[k]),
    decreases s.len(),
{
    if s.len() > 0 && !is_path_sep(s.last()) {
        lemma_name_start_bounds(s.drop_last());
        assert forall|k: int| spec_name_start(s) <= k < s.len() implies !is_path_sep(s[k]) by {
            if k < s.len() - 1 {
                assert(s.drop_last()[k] == s[k]);
            }
        }
    }
}

/// Any index with the same characterization is the name start.
proof fn lemma_name_start_unique(s: Seq<char>, k: int)
    requires
        0 <= k <= s.len(),
        k > 0 ==> is_path_sep(s[k - 1]),
        forall|j: int| k <= j < s.len() ==> !is_path_sep(s[j]),
    ensures
        spec_name_start(s) == k,
    decreases s.len(),
{
    if s.len() == 0 {
    } else if is_path_sep(s.last()) {
        assert(k == s.len());
    } else {
        assert(k < s.len());
        lemma_name_start_unique(s.drop_last(), k);
    }
}

/// Index of the last dot anywhere in `s`, or `-1`.
pub open spec fn spec_last_dot(s: Seq<char>) -> int
    decreases s.len(),
{
    if s.len() == 0 {
        -1
    } else if s.last() == '.' {
        s.len() - 1
    } else {
        spec_last_dot(s.drop_last())
    }
}

proof fn lemma_last_dot_none(s: Seq<char>)
    requires
        forall|k: int| 0 <= k < s.len() ==> s[k] != '.',
    ensures
        spec_last_dot(s) == -1,
    decreases s.len(),
{
    if s.len() > 0 {
        assert(s.last() != '.');
        assert(forall|k: int| 0 <= k < s.len() - 1 ==> s.drop_last()[k] == s[k]);
        lemma_last_dot_none(s.drop_last());
    }
}

proof fn lemma_last_dot_at(s: Seq<char>, d: int)
    requires
        0 <= d < s.len(),
        s[d] == '.',
        forall|k: int| d < k < s.len() ==> s[k] != '.',
    ensures
        spec_last_dot(s) == d,
    decreases s.len(),
{
    if d == s.len() - 1 {
    } else {
        assert(s.last() != '.');
        assert(forall|k: int| 0 <= k < s.len() - 1 ==> s.drop_last()[k] == s[k]);
        lemma_last_dot_at(s.drop_last(), d);
    }
}

/// The extension of a path: what follows the last dot, when that dot lies
/// strictly inside the file name.
pub open spec fn spec_extension(s: Seq<char>) -> Option<Seq<char>> {
    let d = spec_last_dot(s);
    if d > spec_name_start(s) {
        Some(s.subrange(d + 1, s.len() as int))
    } else {
        None
    }
}

/// The index after the last dot when the path has an extension.
pub fn find_extension(v: &Vec<char>) -> (r: Option<usize>)
    ensures
        match r {
            Some(d) => {
                &&& 0 <= d < v@.len()
                &&& spec_last_dot(v@) == d
                &&& d > spec_name_start(v@)
                &&& spec_extension(v@) == Some(v@.subrange(d + 1, v@.len() as int))
            },
            None => spec_extension(v@) is None,
        },
{
    let d = match last_dot(v) {
        Some(d) => d,
        None => {
            proof {
                lemma_name_start_bounds(v@);
            }
            return None;
        },
    };
    let j = name_start(v);
    if d > j {
        Some(d)
    } else {
        None
    }
}

/// The last dot in `v`, scanning from the end.
fn last_dot(v: &Vec<char>) -> (r: Option<usize>)
    ensures
        match r {
            Some(d) => d < v@.len() && spec_last_dot(v@) == d,
            None => spec_last_dot(v@) == -1,
        },
{
    let mut i: usize = v.len();
    while i > 0
        invariant
            i <= v@.len(),
            forall|k: int| i <= k < v@.len() ==> v@[k] != '.',
        decreases i,
    {
        if v[i - 1] == '.' {
            proof {
                lemma_last_dot_at(v@, i - 1 as int);
            }
            return Some(i - 1);
        }
        i = i - 1;
    }
    proof {
        lemma_last_dot_none(v@);
    }
    None
}

/// Where the file name of `v` begins.
fn name_start(v: &Vec<char>) -> (r: usize)
    ensures
        r == spec_name_start(v@),
{
    let mut j: usize = v.len();
    while j > 0 && !(v[j - 1] == '/' || v[j - 1] == '\\')
        invariant
            j <= v@.len(),
            forall|k: int| j <= k < v@.len() ==> !is_path_sep(v@[k]),
        decreases j,
    {
        j = j - 1;
    }
    proof {
        lemma_name_start_unique(v@, j as int);
    }
    j
}

} // verus!
