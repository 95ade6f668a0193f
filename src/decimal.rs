//! Canonical decimal text of unsigned integers, written and read back.
use vstd::prelude::*;

verus! {

pub open spec fn is_digit(c: u8) -> bool {
    48 <= c <= 57
}

/// Canonical decimal digits of `n`: no leading zero, "0" for zero.
pub open spec fn dec(n: nat) -> Seq<u8>
    decreases n,
{
    if n < 10 {
        seq![(48 + n) as u8]
    } else {
        dec(n / 10).push((48 + n % 10) as u8)
    }
}

/// Value of a string of digits.
pub open spec fn digits_value(t: Seq<u8>) -> nat
    decreases t.len(),
{
    if t.len() == 0 {
        0
    } else {
        digits_value(t.drop_last()) * 10 + (t.last() - 48) as nat
    }
}

pub open spec fn all_digits(t: Seq<u8>) -> bool {
    forall|i: int| 0 <= i < t.len() ==> is_digit(#[trigger] t[i])
}

/// A non-empty digit string without a leading zero (or the single digit 0).
pub open spec fn canonical(t: Seq<u8>) -> bool {
    &&& t.len() > 0
    &&& all_digits(t)
    &&& (t[0] == 48 ==> t.len() == 1)
}

pub proof fn lemma_dec_props(n: nat)
    ensures
        canonical(dec(n)),
        digits_value(dec(n)) == n,
        dec(n).len() >= 1,
    decreases n,
{
    let t = dec(n);
    if n >= 10 {
        let u = dec(n / 10);
        lemma_dec_props(n / 10);
        assert(t.drop_last() == u);
        assert(t[0] == u[0]);
        assert(n == (n / 10) * 10 + n % 10);
        assert(t.last() == (48 + n % 10) as u8);
        assert(digits_value(t) == digits_value(u) * 10 + (n % 10));
        assert(digits_value(u) == n / 10);
        assert(digits_value(u) * 10 == (n / 10) * 10);
        assert forall|i: int| 0 <= i < t.len() implies is_digit(#[trigger] t[i]) by {
            if i < t.len() - 1 {
                assert(t[i] == u[i]);
            }
        }
        if t[0] == 48 {
            assert(u.len() == 1);
            assert(u.drop_last().len() == 0);
            assert(u.last() == u[0]);
            assert(digits_value(u.drop_last()) == 0);
            assert(digits_value(u) == 0);
        }
    } else {
        assert(t.drop_last().len() == 0);
        assert(digits_value(t.drop_last()) == 0);
        assert(t.last() == (48 + n) as u8);
    }
}

pub proof fn lemma_value_positive(t: Seq<u8>)
    requires
        canonical(t),
        t[0] != 48,
    ensures
        digits_value(t) >= 1,
    decreases t.len(),
{
    if t.len() > 1 {
        let u = t.drop_last();
        assert(u[0] == t[0]);
        assert(all_digits(u)) by {
            assert forall|i: int| 0 <= i < u.len() implies is_digit(#[trigger] u[i]) by {
                assert(u[i] == t[i]);
            }
        }
        lemma_value_positive(u);
    } else {
        assert(t.drop_last().len() == 0);
        assert(digits_value(t.drop_last()) == 0);
        assert(t.last() == t[0]);
    }
}

pub proof fn lemma_canonical_dec(t: Seq<u8>)
    requires
        canonical(t),
    ensures
        dec(digits_value(t)) == t,
    decreases t.len(),
{
    if t.len() == 1 {
        assert(t.drop_last().len() == 0);
        assert(digits_value(t.drop_last()) == 0);
        assert(t.last() == t[0]);
        assert(dec(digits_value(t)) =~= t);
    } else {
        let u = t.drop_last();
        assert(u[0] == t[0]);
        assert(all_digits(u)) by {
            assert forall|i: int| 0 <= i < u.len() implies is_digit(#[trigger] u[i]) by {
                assert(u[i] == t[i]);
            }
        }
        assert(is_digit(t[t.len() - 1]));
        lemma_value_positive(u);
        lemma_canonical_dec(u);
        let v = digits_value(t);
        let d = (t.last() - 48) as nat;
        assert(v == digits_value(u) * 10 + d);
        assert(v / 10 == digits_value(u) && v % 10 == d) by (nonlinear_arith)
            requires
                v == digits_value(u) * 10 + d,
                d < 10,
        ;
        assert(dec(v) =~= t);
    }
}

pub proof fn lemma_prefix_value_le(t: Seq<u8>, i: int)
    requires
        all_digits(t),
        0 <= i <= t.len(),
    ensures
        digits_value(t.subrange(0, i)) <= digits_value(t),
    decreases t.len() - i,
{
    if i < t.len() {
        lemma_prefix_value_le(t, i + 1);
        let u = t.subrange(0, i + 1);
        assert(u.drop_last() == t.subrange(0, i));
    } else {
        assert(t.subrange(0, i) == t);
    }
}

/// Appends the canonical decimal digits of `n`.
pub fn push_decimal(out: &mut Vec<u8>, n: u64)
    ensures
        final(out)@ == old(out)@ + dec(n as nat),
    decreases n,
{
    if n >= 10 {
        push_decimal(out, n / 10);
    }
    out.push(48u8 + (n % 10) as u8);
    proof {
        if n < 10 {
            assert(final(out)@ =~= old(out)@ + dec(n as nat));
        } else {
            assert(final(out)@ =~= old(out)@ + dec(n as nat));
        }
    }
}

/// Reads a canonical decimal number at `pos` of `b`, ending at the first
/// byte that is not a digit. `None` when there is none, when it has a leading
/// zero, or when it exceeds `u64::MAX`.
pub fn read_decimal(b: &[u8], pos: usize) -> (r: Option<(u64, usize)>)
    requires
        pos <= b@.len(),
    ensures
        r matches Some((v, e)) ==> pos < e <= b@.len() && b@.subrange(pos as int, e as int) == dec(
            v as nat,
        ) && (e == b@.len() || !is_digit(b@[e as int])),
        forall|n: u64|
            pos + dec(n as nat).len() <= b@.len() && #[trigger] b@.subrange(
                pos as int,
                pos + dec(n as nat).len(),
            ) == dec(n as nat) && (pos + dec(n as nat).len() == b@.len() || !is_digit(
                b@[pos + dec(n as nat).len()],
            )) ==> r == Some((n, (pos + dec(n as nat).len()) as usize)),
{
    if pos >= b.len() || !(48 <= b[pos] && b[pos] <= 57) {
        proof {
            assert forall|n: u64|
                pos + dec(n as nat).len() <= b@.len() && #[trigger] b@.subrange(
                    pos as int,
                    pos + dec(n as nat).len(),
                ) == dec(n as nat) implies false by {
                lemma_dec_props(n as nat);
                assert(b@[pos as int] == dec(n as nat)[0]);
            }
        }
        return None;
    }
    let mut v: u64 = 0;
    let mut i: usize = pos;
    while i < b.len() && 48 <= b[i] && b[i] <= 57
        invariant
            pos <= i <= b@.len(),
            all_digits(b@.subrange(pos as int, i as int)),
            v as nat == digits_value(b@.subrange(pos as int, i as int)),
        decreases b@.len() - i,
    {
        let d = (b[i] - 48) as u64;
        let ghost t = b@.subrange(pos as int, i + 1);
        assert(t.drop_last() == b@.subrange(pos as int, i as int));
        if v > (u64::MAX - d) / 10 {
            proof {
                assert(digits_value(t) > u64::MAX) by (nonlinear_arith)
                    requires
                        digits_value(t) == v * 10 + d,
                        v > (u64::MAX - d) / 10,
                        d <= 9,
                ;
                assert forall|n: u64|
                    pos + dec(n as nat).len() <= b@.len() && #[trigger] b@.subrange(
                        pos as int,
                        pos + dec(n as nat).len(),
                    ) == dec(n as nat) && (pos + dec(n as nat).len() == b@.len() || !is_digit(
                        b@[pos + dec(n as nat).len()],
                    )) implies false by {
                    let l = dec(n as nat).len();
                    lemma_dec_props(n as nat);
                    if i + 1 > pos + l {
                        assert(b@[pos + l] == t[l as int]);
                    } else {
                        let w = b@.subrange(pos as int, pos + l);
                        assert(t == w.subrange(0, i + 1 - pos));
                        lemma_prefix_value_le(w, i + 1 - pos);
                    }
                }
            }
            return None;
        }
        assert(v * 10 + d <= u64::MAX) by (nonlinear_arith)
            requires
                v <= (u64::MAX - d) / 10,
                d <= 9,
        ;
        v = v * 10 + d;
        i = i + 1;
        proof {
            assert(all_digits(b@.subrange(pos as int, i as int))) by {
                assert forall|k: int| 0 <= k < t.len() implies is_digit(#[trigger] t[k]) by {
                    if k < t.len() - 1 {
                        assert(t[k] == t.drop_last()[k]);
                    }
                }
            }
        }
    }
    let ghost t = b@.subrange(pos as int, i as int);
    if b[pos] == 48 && i > pos + 1 {
        proof {
            assert forall|n: u64|
                pos + dec(n as nat).len() <= b@.len() && #[trigger] b@.subrange(
                    pos as int,
                    pos + dec(n as nat).len(),
                ) == dec(n as nat) && (pos + dec(n as nat).len() == b@.len() || !is_digit(
                    b@[pos + dec(n as nat).len()],
                )) implies false by {
                let l = dec(n as nat).len();
                lemma_dec_props(n as nat);
                assert(dec(n as nat)[0] == 48);
                assert(l == 1);
                assert(is_digit(t[1]));
            }
        }
        return None;
    }
    proof {
        assert(t[0] == b@[pos as int]);
        lemma_canonical_dec(t);
        assert forall|n: u64|
            pos + dec(n as nat).len() <= b@.len() && #[trigger] b@.subrange(
                pos as int,
                pos + dec(n as nat).len(),
            ) == dec(n as nat) && (pos + dec(n as nat).len() == b@.len() || !is_digit(
                b@[pos + dec(n as nat).len()],
            )) implies i == pos + dec(n as nat).len() && v == n by {
            let l = dec(n as nat).len();
            lemma_dec_props(n as nat);
            let w = b@.subrange(pos as int, pos + l);
            if i < pos + l {
                assert(b@[i as int] == w[i - pos]);
            } else if i > pos + l {
                assert(b@[pos + l] == t[l as int]);
            }
            assert(t == w);
        }
    }
    Some((v, i))
}

} // verus!
