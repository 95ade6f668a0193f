//! The `START..END` syntax of a height range.
use vstd::prelude::*;

verus! {

broadcast use vstd::string::group_string_axioms;

/// Why a range text was refused.
#[derive(Clone, Copy, Debug, PartialEq, Eq)]
pub enum RangeError {
    /// No `..` in the text.
    MissingSeparator,
    /// The part before `..` is not a 32-bit unsigned integer.
    InvalidStart,
    /// The part after `..` is not a 32-bit unsigned integer.
    InvalidEnd,
    /// The start is not below the end.
    EmptyRange,
}

/// The Unicode `White_Space` characters.
pub open spec fn is_ws(c: char) -> bool {
    let u = c as u32;
    (9 <= u <= 13) || u == 32 || u == 0x85 || u == 0xA0 || u == 0x1680 || (0x2000 <= u <= 0x200A)
        || u == 0x2028 || u == 0x2029 || u == 0x202F || u == 0x205F || u == 0x3000
}

pub open spec fn trim_start(s: Seq<char>) -> Seq<char>
    decreases s.len(),
{
    if s.len() > 0 && is_ws(s[0]) {
        trim_start(s.drop_first())
    } else {
        s
    }
}

pub open spec fn trim_end(s: Seq<char>) -> Seq<char>
    decreases s.len(),
{
    if s.len() > 0 && is_ws(s.last()) {
        trim_end(s.drop_last())
    } else {
        s
    }
}

/// `s` without leading and trailing white space.
pub open spec fn trim(s: Seq<char>) -> Seq<char> {
    trim_end(trim_start(s))
}

/// Index of the first `..` of `t` at or after `i`.
pub open spec fn find_sep(t: Seq<char>, i: int) -> Option<int>
    decreases t.len() - i,
{
    if i < 0 || i + 1 >= t.len() {
        None
    } else if t[i] == '.' && t[i + 1] == '.' {
        Some(i)
    } else {
        find_sep(t, i + 1)
    }
}

pub open spec fn is_ascii_digit(c: char) -> bool {
    '0' <= c <= '9'
}

/// Value of a string of decimal digits.
pub open spec fn chars_value(t: Seq<char>) -> nat
    decreases t.len(),
{
    if t.len() == 0 {
        0
    } else {
        chars_value(t.drop_last()) * 10 + (t.last() as u32 - '0' as u32) as nat
    }
}

/// The text after an optional leading `+`.
pub open spec fn digits_part(x: Seq<char>) -> Seq<char> {
    if x.len() > 0 && x[0] == '+' {
        x.drop_first()
    } else {
        x
    }
}

/// An unsigned 32-bit integer as `str::parse` reads it: an optional `+`,
/// then one or more decimal digits, leading zeros allowed.
pub open spec fn parse_u32_spec(x: Seq<char>) -> Option<u32> {
    let d = digits_part(x);
    if d.len() > 0 && (forall|i: int| 0 <= i < d.len() ==> is_ascii_digit(#[trigger] d[i]))
        && chars_value(d) <= u32::MAX {
        Some(chars_value(d) as u32)
    } else {
        None
    }
}

/// What a range text means: the trimmed text split at its first `..`, each
/// side trimmed and read as an integer, the start below the end.
pub open spec fn range_spec(s: Seq<char>) -> Result<(u32, u32), RangeError> {
    let t = trim(s);
    match find_sep(t, 0) {
        None => Err(RangeError::MissingSeparator),
        Some(i) => match parse_u32_spec(trim(t.subrange(0, i))) {
            None => Err(RangeError::InvalidStart),
            Some(lo) => match parse_u32_spec(trim(t.subrange(i + 2, t.len() as int))) {
                None => Err(RangeError::InvalidEnd),
                Some(hi) => if lo >= hi {
                    Err(RangeError::EmptyRange)
                } else {
                    Ok((lo, hi))
                },
            },
        },
    }
}

fn is_whitespace(c: char) -> (r: bool)
    ensures
        r == is_ws(c),
{
    let u = c as u32;
    (9 <= u && u <= 13) || u == 32 || u == 0x85 || u == 0xA0 || u == 0x1680 || (0x2000 <= u && u
        <= 0x200A) || u == 0x2028 || u == 0x2029 || u == 0x202F || u == 0x205F || u == 0x3000
}

proof fn lemma_trim_start_skip(s: Seq<char>, k: int)
    requires
        0 <= k <= s.len(),
        forall|j: int| 0 <= j < k ==> is_ws(#[trigger] s[j]),
        k == s.len() || !is_ws(s[k]),
    ensures
        trim_start(s) == s.subrange(k, s.len() as int),
    decreases k,
{
    if k == 0 {
        assert(s.subrange(0, s.len() as int) == s);
    } else {
        let t = s.drop_first();
        assert forall|j: int| 0 <= j < k - 1 implies is_ws(#[trigger] t[j]) by {
            assert(t[j] == s[j + 1]);
        }
        if k - 1 < t.len() {
            assert(t[k - 1] == s[k]);
        }
        lemma_trim_start_skip(t, k - 1);
        assert(t.subrange(k - 1, t.len() as int) =~= s.subrange(k, s.len() as int));
    }
}

proof fn lemma_trim_end_skip(s: Seq<char>, k: int)
    requires
        0 <= k <= s.len(),
        forall|j: int| k <= j < s.len() ==> is_ws(#[trigger] s[j]),
        k == 0 || !is_ws(s[k - 1]),
    ensures
        trim_end(s) == s.subrange(0, k),
    decreases s.len() - k,
{
    if k == s.len() {
        assert(s.subrange(0, k) == s);
    } else {
        let t = s.drop_last();
        assert forall|j: int| k <= j < t.len() implies is_ws(#[trigger] t[j]) by {
            assert(t[j] == s[j]);
        }
        if k > 0 {
            assert(t[k - 1] == s[k - 1]);
        }
        assert(is_ws(s[s.len() - 1]));
        lemma_trim_end_skip(t, k);
        assert(t.subrange(0, k) =~= s.subrange(0, k));
    }
}

/// Bounds of `c[lo..hi]` without its leading and trailing white space.
fn trim_bounds(c: &Vec<char>, lo: usize, hi: usize) -> (r: (usize, usize))
    requires
        lo <= hi <= c@.len(),
    ensures
        lo <= r.0 <= r.1 <= hi,
        c@.subrange(r.0 as int, r.1 as int) == trim(c@.subrange(lo as int, hi as int)),
{
    let ghost s = c@.subrange(lo as int, hi as int);
    let mut a = lo;
    while a < hi && is_whitespace(c[a])
        invariant
            lo <= a <= hi <= c@.len(),
            forall|j: int| lo <= j < a ==> is_ws(#[trigger] c@[j]),
        decreases hi - a,
    {
        a += 1;
    }
    proof {
        assert forall|j: int| 0 <= j < a - lo implies is_ws(#[trigger] s[j]) by {
            assert(s[j] == c@[lo + j]);
        }
        if a < hi {
            assert(s[a - lo] == c@[a as int]);
        }
        lemma_trim_start_skip(s, a - lo);
    }
    let ghost t = c@.subrange(a as int, hi as int);
    assert(t =~= s.subrange(a - lo, s.len() as int));
    let mut b = hi;
    while b > a && is_whitespace(c[b - 1])
        invariant
            lo <= a <= b <= hi <= c@.len(),
            forall|j: int| b <= j < hi ==> is_ws(#[trigger] c@[j]),
        decreases b - a,
    {
        b -= 1;
    }
    proof {
        assert forall|j: int| b - a <= j < t.len() implies is_ws(#[trigger] t[j]) by {
            assert(t[j] == c@[a + j]);
        }
        if b > a {
            assert(t[b - a - 1] == c@[b - 1]);
        }
        lemma_trim_end_skip(t, b - a);
        assert(t.subrange(0, b - a) =~= c@.subrange(a as int, b as int));
    }
    (a, b)
}

proof fn lemma_chars_value_prefix(t: Seq<char>, i: int)
    requires
        0 <= i < t.len(),
    ensures
        chars_value(t.subrange(0, i + 1)) == chars_value(t.subrange(0, i)) * 10 + (t[i] as u32
            - '0' as u32) as nat,
{
    assert(t.subrange(0, i + 1).drop_last() =~= t.subrange(0, i));
}

proof fn lemma_chars_value_mono(t: Seq<char>, i: int)
    requires
        0 <= i <= t.len(),
        forall|k: int| 0 <= k < t.len() ==> is_ascii_digit(#[trigger] t[k]),
    ensures
        chars_value(t.subrange(0, i)) <= chars_value(t),
    decreases t.len() - i,
{
    if i < t.len() {
        lemma_chars_value_mono(t, i + 1);
        lemma_chars_value_prefix(t, i);
    } else {
        assert(t.subrange(0, i) == t);
    }
}

/// Reads `c[lo..hi]` as `str::parse::<u32>` does.
fn parse_u32_chars(c: &Vec<char>, lo: usize, hi: usize) -> (r: Option<u32>)
    requires
        lo <= hi <= c@.len(),
    ensures
        r == parse_u32_spec(c@.subrange(lo as int, hi as int)),
{
    let ghost x = c@.subrange(lo as int, hi as int);
    let mut start = lo;
    if lo < hi && c[lo] == '+' {
        start = lo + 1;
    }
    let ghost d = c@.subrange(start as int, hi as int);
    proof {
        if x.len() > 0 && x[0] == '+' {
            assert(d =~= x.drop_first());
        } else {
            assert(d =~= x);
        }
        assert(d == digits_part(x));
    }
    if start >= hi {
        return None;
    }
    let mut v: u32 = 0;
    let mut i = start;
    while i < hi
        invariant
            start <= i <= hi <= c@.len(),
            d == c@.subrange(start as int, hi as int),
            d == digits_part(x),
            x == c@.subrange(lo as int, hi as int),
            lo <= start,
            forall|k: int| 0 <= k < i - start ==> is_ascii_digit(#[trigger] d[k]),
            v as nat == chars_value(d.subrange(0, i - start)),
        decreases hi - i,
    {
        let ch = c[i];
        assert(ch == d[i - start]);
        if !('0' <= ch && ch <= '9') {
            proof {
                assert(!is_ascii_digit(digits_part(x)[i - start]));
            }
            return None;
        }
        let digit = (ch as u32) - ('0' as u32);
        proof {
            lemma_chars_value_prefix(d, i - start);
        }
        if v > (0xffff_ffffu32 - digit) / 10 {
            proof {
                assert(chars_value(d.subrange(0, i - start + 1)) > u32::MAX) by (nonlinear_arith)
                    requires
                        chars_value(d.subrange(0, i - start + 1)) == v * 10 + digit,
                        v > (0xffff_ffffu32 - digit) / 10,
                        digit <= 9,
                ;
                let dp = digits_part(x);
                if forall|k: int| 0 <= k < dp.len() ==> is_ascii_digit(#[trigger] dp[k]) {
                    lemma_chars_value_mono(dp, i - start + 1);
                    assert(chars_value(dp) > u32::MAX);
                }
            }
            return None;
        }
        assert(v * 10 + digit <= u32::MAX) by (nonlinear_arith)
            requires
                v <= (0xffff_ffffu32 - digit) / 10,
                digit <= 9,
        ;
        v = v * 10 + digit;
        i += 1;
    }
    assert(d.subrange(0, i - start) == d);
    Some(v)
}

/// The characters of `s`.
fn chars_of(s: &str) -> (r: Vec<char>)
    ensures
        r@ == s@,
{
    let n = s.unicode_len();
    let mut c: Vec<char> = Vec::new();
    let mut k: usize = 0;
    while k < n
        invariant
            0 <= k <= n,
            n == s@.len(),
            c@ == s@.subrange(0, k as int),
        decreases n - k,
    {
        c.push(s.get_char(k));
        k += 1;
        assert(c@ =~= s@.subrange(0, k as int));
    }
    assert(c@ == s@);
    c
}

/// `s` without leading and trailing white space.
pub fn trimmed(s: &str) -> (r: String)
    ensures
        r@ == trim(s@),
{
    let c = chars_of(s);
    let (a, b) = trim_bounds(&c, 0, c.len());
    assert(c@.subrange(0, c@.len() as int) == c@);
    s.substring_char(a, b).to_string()
}

/// Reads a height range written `START..END`, with white space allowed
/// around the whole text and around each bound.
pub fn parse_range(s: &str) -> (r: Result<(u32, u32), RangeError>)
    ensures
        r == range_spec(s@),
{
    let c = chars_of(s);
    let (a, b) = trim_bounds(&c, 0, c.len());
    assert(c@.subrange(0, c@.len() as int) == c@);
    let ghost t = c@.subrange(a as int, b as int);
    let mut i = a;
    let mut found = false;
    while !found && b - i >= 2
        invariant
            a <= i <= b,
            b <= c@.len(),
            t == c@.subrange(a as int, b as int),
            found ==> b - i >= 2 && find_sep(t, 0) == Some(i - a),
            !found ==> find_sep(t, 0) == find_sep(t, i - a),
        decreases (b - i) * 2 + (if found {
            0int
        } else {
            1int
        }),
    {
        assert(t[i - a] == c@[i as int] && t[i - a + 1] == c@[i + 1]);
        if c[i] == '.' && c[i + 1] == '.' {
            found = true;
        } else {
            i += 1;
        }
    }
    if !found {
        return Err(RangeError::MissingSeparator);
    }
    assert(find_sep(t, 0) == Some(i - a));
    let (a1, b1) = trim_bounds(&c, a, i);
    assert(c@.subrange(a as int, i as int) =~= t.subrange(0, i - a));
    let lo = match parse_u32_chars(&c, a1, b1) {
        Some(v) => v,
        None => {
            return Err(RangeError::InvalidStart);
        },
    };
    let (a2, b2) = trim_bounds(&c, i + 2, b);
    assert(c@.subrange(i + 2, b as int) =~= t.subrange(i - a + 2, t.len() as int));
    let hi = match parse_u32_chars(&c, a2, b2) {
        Some(v) => v,
        None => {
            return Err(RangeError::InvalidEnd);
        },
    };
    if lo >= hi {
        return Err(RangeError::EmptyRange);
    }
    Ok((lo, hi))
}

} // verus!
