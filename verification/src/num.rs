//! Decimal rendering and parsing of unsigned integers for the index file:
//! a number is written as its usual base-ten digits, and parsing returns
//! exactly the value whose digits were written.

use vstd::prelude::*;

verus! {

/// The digit character for a value below ten.
pub open spec fn digit_char(d: int) -> char {
    if d == 0 {
        '0'
    } else if d == 1 {
        '1'
    } else if d == 2 {
        '2'
    } else if d == 3 {
        '3'
    } else if d == 4 {
        '4'
    } else if d == 5 {
        '5'
    } else if d == 6 {
        '6'
    } else if d == 7 {
        '7'
    } else if d == 8 {
        '8'
    } else {
        '9'
    }
}

/// The value of a digit character, or ten for any non-digit.
pub open spec fn digit_value(c: char) -> int {
    if c == '0' {
        0
    } else if c == '1' {
        1
    } else if c == '2' {
        2
    } else if c == '3' {
        3
    } else if c == '4' {
        4
    } else if c == '5' {
        5
    } else if c == '6' {
        6
    } else if c == '7' {
        7
    } else if c == '8' {
        8
    } else if c == '9' {
        9
    } else {
        10
    }
}

pub open spec fn is_digit(c: char) -> bool {
    digit_value(c) < 10
}

/// The base-ten digits of `n`, most significant first, with no leading zero
/// except for `n == 0` itself.
pub open spec fn spec_digits(n: nat) -> Seq<char>
    decreases n,
{
    if n < 10 {
        seq![digit_char(n as int)]
    } else {
        spec_digits(n / 10).push(digit_char((n % 10) as int))
    }
}

/// The value of a digit string, read left to right.
pub open spec fn spec_value(s: Seq<char>) -> int
    decreases s.len(),
{
    if s.len() == 0 {
        0
    } else {
        spec_value(s.drop_last()) * 10 + digit_value(s.last())
    }
}

pub open spec fn all_digits(s: Seq<char>) -> bool {
    forall|i: int| 0 <= i < s.len() ==> is_digit(#[trigger] s[i])
}

pub proof fn lemma_digits_all_digits(n: nat)
    ensures
        all_digits(spec_digits(n)),
        spec_digits(n).len() >= 1,
    decreases n,
{
    if n >= 10 {
        lemma_digits_all_digits(n / 10);
    }
}

pub proof fn lemma_digits_value(n: nat)
    ensures
        spec_value(spec_digits(n)) == n,
    decreases n,
{
    let s = spec_digits(n);
    if n < 10 {
        assert(s.len() == 1);
        assert(s.drop_last() =~= Seq::<char>::empty());
        assert(spec_value(s.drop_last()) == 0);
        assert(spec_value(s) == spec_value(s.drop_last()) * 10 + digit_value(s.last()));
        assert(s.last() == digit_char(n as int));
        assert(digit_value(digit_char(n as int)) == n);
    } else {
        lemma_digits_value(n / 10);
        assert(s.len() >= 1);
        assert(s.drop_last() =~= spec_digits(n / 10));
        assert(spec_value(s) == spec_value(s.drop_last()) * 10 + digit_value(s.last()));
        assert(s.last() == digit_char((n % 10) as int));
        assert(digit_value(digit_char((n % 10) as int)) == n % 10);
    }
}

/// A digit string's value never falls when more digits are appended.
pub proof fn lemma_value_prefix_le(s: Seq<char>, i: int)
    requires
        all_digits(s),
        0 <= i <= s.len(),
    ensures
        0 <= spec_value(s.subrange(0, i)) <= spec_value(s),
    decreases s.len() - i, s.len(),
{
    if i == s.len() {
        assert(s.subrange(0, i) =~= s);
        lemma_value_nonneg(s);
    } else {
        lemma_value_prefix_le(s, i + 1);
        let t = s.subrange(0, i + 1);
        assert(t.drop_last() =~= s.subrange(0, i));
        lemma_value_nonneg(s.subrange(0, i));
    }
}

pub proof fn lemma_value_nonneg(s: Seq<char>)
    requires
        all_digits(s),
    ensures
        spec_value(s) >= 0,
    decreases s.len(),
{
    if s.len() > 0 {
        assert(all_digits(s.drop_last())) by {
            assert(forall|i: int|
                0 <= i < s.len() - 1 ==> is_digit(#[trigger] s.drop_last()[i]) == is_digit(s[i]));
        }
        lemma_value_nonneg(s.drop_last());
    }
}

/// Digits of `n`, most significant first.
pub fn format_u64(n: u64) -> (r: Vec<char>)
    ensures
        r@ == spec_digits(n as nat),
    decreases n,
{
    if n < 10 {
        let d = digit_of(n);
        let mut r: Vec<char> = Vec::new();
        r.push(d);
        proof {
            assert(r@ =~= spec_digits(n as nat));
        }
        r
    } else {
        let mut r = format_u64(n / 10);
        let d = digit_of(n % 10);
        r.push(d);
        r
    }
}

/// The digit character of a value below ten.
fn digit_of(d: u64) -> (c: char)
    requires
        d < 10,
    ensures
        c == digit_char(d as int),
{
    if d == 0 {
        '0'
    } else if d == 1 {
        '1'
    } else if d == 2 {
        '2'
    } else if d == 3 {
        '3'
    } else if d == 4 {
        '4'
    } else if d == 5 {
        '5'
    } else if d == 6 {
        '6'
    } else if d == 7 {
        '7'
    } else if d == 8 {
        '8'
    } else {
        '9'
    }
}

/// The value of one digit character, or ten for any other character.
fn value_of(c: char) -> (d: u64)
    ensures
        d == digit_value(c),
{
    if c == '0' {
        0
    } else if c == '1' {
        1
    } else if c == '2' {
        2
    } else if c == '3' {
        3
    } else if c == '4' {
        4
    } else if c == '5' {
        5
    } else if c == '6' {
        6
    } else if c == '7' {
        7
    } else if c == '8' {
        8
    } else if c == '9' {
        9
    } else {
        10
    }
}

/// Parses the digit string `v[from..upto)`. Returns its value exactly when
/// the range is non-empty, all digits, and the value fits in a `u64`.
pub fn parse_u64(v: &Vec<char>, from: usize, upto: usize) -> (r: Option<u64>)
    requires
        from <= upto <= v@.len(),
    ensures
        match r {
            Some(n) => {
                let s = v@.subrange(from as int, upto as int);
                &&& from < upto
                &&& all_digits(s)
                &&& spec_value(s) == n
            },
            None => {
                let s = v@.subrange(from as int, upto as int);
                from == upto || !all_digits(s) || spec_value(s) > u64::MAX
            },
        },
{
    if from == upto {
        return None;
    }
    let ghost s = v@.subrange(from as int, upto as int);
    let mut acc: u64 = 0;
    let mut i: usize = from;
    while i < upto
        invariant
            from <= i <= upto <= v@.len(),
            s == v@.subrange(from as int, upto as int),
            all_digits(s.subrange(0, i - from)),
            acc == spec_value(s.subrange(0, i - from)),
        decreases upto - i,
    {
        let d = value_of(v[i]);
        if d >= 10 {
            proof {
                assert(s[i - from] == v@[i as int]);
                assert(!is_digit(s[i - from]));
            }
            return None;
        }
        let ghost pre = s.subrange(0, i - from);
        let ghost post = s.subrange(0, i + 1 - from);
        proof {
            assert(post.drop_last() =~= pre);
            assert(post.last() == v@[i as int]);
        }
        if acc > (u64::MAX - d) / 10 {
            // The value up to and including this digit already exceeds
            // u64::MAX, and appending digits never lowers it.
            proof {
                assert(spec_value(post) == acc * 10 + d);
                assert(spec_value(post) > u64::MAX);
                if all_digits(s) {
                    lemma_value_prefix_le(s, i + 1 - from);
                }
            }
            return None;
        }
        acc = acc * 10 + d;
        i = i + 1;
    }
    proof {
        assert(s.subrange(0, upto - from) =~= s);
    }
    Some(acc)
}

/// Round trip: parsing the printed digits of `n` yields `n` again.
pub proof fn lemma_num_round_trip(n: u64)
    ensures
        spec_digits(n as nat).len() >= 1,
        all_digits(spec_digits(n as nat)),
        spec_value(spec_digits(n as nat)) == n,
{
    lemma_digits_all_digits(n as nat);
    lemma_digits_value(n as nat);
}

} // verus!
