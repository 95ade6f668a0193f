//! Text form of histograms, as stored in the block and range tables:
//! `{"1_2":3,"0_1":4}` for (inputs, outputs) pairs, `{"4":7}` for versions,
//! `[1,0,2,0,0,0]` for size buckets. Decoding accepts exactly the texts that
//! encoding produces.
use vstd::prelude::*;
use crate::decimal::{dec, is_digit, lemma_dec_props, push_decimal, read_decimal};
use crate::hist::{keys_distinct, Histogram};

verus! {

/// How a histogram key is written.
#[derive(Clone, Copy, Debug, PartialEq, Eq)]
pub enum KeyStyle {
    /// The key itself, in decimal.
    Plain,
    /// A composite key as `high_low`: its high and low 32 bits in decimal.
    Pair,
}

pub open spec fn enc_key(k: u64, st: KeyStyle) -> Seq<u8> {
    match st {
        KeyStyle::Plain => dec(k as nat),
        KeyStyle::Pair => dec(k as nat / 0x1_0000_0000) + seq![95u8] + dec(k as nat % 0x1_0000_0000),
    }
}

/// `"key":count`
pub open spec fn enc_entry(e: (u64, u64), st: KeyStyle) -> Seq<u8> {
    seq![34u8] + enc_key(e.0, st) + seq![34u8, 58u8] + dec(e.1 as nat)
}

/// Entries separated by commas.
pub open spec fn enc_list(s: Seq<(u64, u64)>, st: KeyStyle) -> Seq<u8>
    decreases s.len(),
{
    if s.len() == 0 {
        Seq::empty()
    } else if s.len() == 1 {
        enc_entry(s[0], st)
    } else {
        enc_list(s.drop_last(), st) + seq![44u8] + enc_entry(s.last(), st)
    }
}

/// The text of a histogram with the given entries.
pub open spec fn enc_object(s: Seq<(u64, u64)>, st: KeyStyle) -> Seq<u8> {
    seq![123u8] + enc_list(s, st) + seq![125u8]
}

proof fn lemma_pair_split(k: u64)
    ensures
        k as nat / 0x1_0000_0000 <= u32::MAX,
        k as nat % 0x1_0000_0000 <= u32::MAX,
        k as nat == (k as nat / 0x1_0000_0000) * 0x1_0000_0000 + k as nat % 0x1_0000_0000,
{
    assert(k as nat / 0x1_0000_0000 <= u32::MAX) by (nonlinear_arith)
        requires
            k <= u64::MAX,
    ;
}

proof fn lemma_pair_join(a: nat, c: nat)
    requires
        c < 0x1_0000_0000,
    ensures
        (a * 0x1_0000_0000 + c) / 0x1_0000_0000 == a,
        (a * 0x1_0000_0000 + c) % 0x1_0000_0000 == c,
{
    assert((a * 0x1_0000_0000 + c) / 0x1_0000_0000 == a) by (nonlinear_arith)
        requires
            c < 0x1_0000_0000,
    ;
    assert((a * 0x1_0000_0000 + c) % 0x1_0000_0000 == c) by (nonlinear_arith)
        requires
            c < 0x1_0000_0000,
    ;
}

/// The quoted key `k` stands at `pos` of `b`.
pub open spec fn quoted_key_at(b: Seq<u8>, pos: int, k: u64, st: KeyStyle) -> bool {
    &&& pos + enc_key(k, st).len() + 2 <= b.len()
    &&& b.subrange(pos, pos + enc_key(k, st).len() + 2) == seq![34u8] + enc_key(k, st) + seq![34u8]
}

/// Facts about a piece of `b` that is known to equal `t`.
proof fn lemma_window(b: Seq<u8>, p: int, t: Seq<u8>, i: int, j: int)
    requires
        0 <= p,
        p + t.len() <= b.len(),
        b.subrange(p, p + t.len()) == t,
        0 <= i <= j <= t.len(),
    ensures
        b.subrange(p + i, p + j) == t.subrange(i, j),
        forall|k: int| 0 <= k < t.len() ==> b[p + k] == #[trigger] t[k],
{
    assert forall|k: int| 0 <= k < t.len() implies b[p + k] == #[trigger] t[k] by {
        assert(b.subrange(p, p + t.len())[k] == b[p + k]);
    }
    assert(b.subrange(p + i, p + j) =~= t.subrange(i, j));
}

/// Reads a quoted key at `pos`.
fn read_key(b: &[u8], pos: usize, st: KeyStyle) -> (r: Option<(u64, usize)>)
    requires
        pos <= b@.len(),
    ensures
        r matches Some((k, e)) ==> pos < e <= b@.len() && b@.subrange(pos as int, e as int) == seq![
            34u8,
        ] + enc_key(k, st) + seq![34u8],
        forall|k: u64| #[trigger] quoted_key_at(b@, pos as int, k, st) ==> r == Some(
                (k, (pos + enc_key(k, st).len() + 2) as usize),
            ),
{
    if pos >= b.len() || b[pos] != 34 {
        proof {
            assert forall|k: u64| #[trigger] quoted_key_at(b@, pos as int, k, st) implies false by {
                assert(b@[pos as int] == (seq![34u8] + enc_key(k, st) + seq![34u8])[0]);
            }
        }
        return None;
    }
    match st {
        KeyStyle::Plain => {
            let (v, e) = match read_decimal(b, pos + 1) {
                Some(x) => x,
                None => {
                    proof {
                        assert forall|k: u64| #[trigger] quoted_key_at(b@, pos as int, k, st) implies false by {
                            let t = seq![34u8] + enc_key(k, st) + seq![34u8];
                            let l = dec(k as nat).len() as int;
                            lemma_window(b@, pos as int, t, 1, 1 + l);
                            assert(t.subrange(1, 1 + l) =~= dec(k as nat));
                            assert(b@[pos + 1 + l] == t[l + 1int]);
                        }
                    }
                    return None;
                },
            };
            if e >= b.len() || b[e] != 34 {
                proof {
                    assert forall|k: u64| #[trigger] quoted_key_at(b@, pos as int, k, st) implies false by {
                        let t = seq![34u8] + enc_key(k, st) + seq![34u8];
                        let l = dec(k as nat).len() as int;
                        lemma_window(b@, pos as int, t, 1, 1 + l);
                        assert(t.subrange(1, 1 + l) =~= dec(k as nat));
                        assert(b@[pos + 1 + l] == t[l + 1int]);
                    }
                }
                return None;
            }
            proof {
                assert(b@.subrange(pos as int, e + 1) =~= seq![34u8] + enc_key(v, st) + seq![34u8]);
                assert forall|k: u64| #[trigger] quoted_key_at(b@, pos as int, k, st) implies v == k && e + 1 == pos
                    + enc_key(k, st).len() + 2 by {
                    let t = seq![34u8] + enc_key(k, st) + seq![34u8];
                    let l = dec(k as nat).len() as int;
                    lemma_window(b@, pos as int, t, 1, 1 + l);
                    assert(t.subrange(1, 1 + l) =~= dec(k as nat));
                    assert(b@[pos + 1 + l] == t[l + 1int]);
                }
            }
            Some((v, e + 1))
        },
        KeyStyle::Pair => {
            proof {
                assert forall|k: u64| #[trigger] quoted_key_at(b@, pos as int, k, st) implies {
                    let hi = dec(k as nat / 0x1_0000_0000);
                    let lo = dec(k as nat % 0x1_0000_0000);
                    &&& b@.subrange(pos + 1, pos + 1 + hi.len()) == hi
                    &&& b@[pos + 1 + hi.len()] == 95u8
                    &&& b@.subrange(pos + 2 + hi.len(), pos + 2 + hi.len() + lo.len()) == lo
                    &&& b@[pos + 2 + hi.len() + lo.len()] == 34u8
                    &&& pos + 3 + hi.len() + lo.len() <= b@.len()
                } by {
                    let hi = dec(k as nat / 0x1_0000_0000);
                    let lo = dec(k as nat % 0x1_0000_0000);
                    let t = seq![34u8] + enc_key(k, st) + seq![34u8];
                    assert(t =~= seq![34u8] + hi + seq![95u8] + lo + seq![34u8]);
                    lemma_window(b@, pos as int, t, 1, 1 + hi.len() as int);
                    lemma_window(b@, pos as int, t, 2 + hi.len() as int, 2 + hi.len() + lo.len() as int);
                    assert(t.subrange(1, 1 + hi.len() as int) =~= hi);
                    assert(t.subrange(2 + hi.len() as int, 2 + hi.len() + lo.len() as int) =~= lo);
                    assert(b@[pos + 1 + hi.len()] == t[hi.len() + 1int]);
                    assert(b@[pos + 2 + hi.len() + lo.len()] == t[hi.len() + lo.len() + 2int]);
                }
            }
            let (hi, e1) = match read_decimal(b, pos + 1) {
                Some(x) => x,
                None => {
                    proof {
                        assert forall|k: u64| #[trigger] quoted_key_at(b@, pos as int, k, st) implies false by {
                            lemma_pair_split(k);
                            let h = (k as nat / 0x1_0000_0000) as u64;
                            assert(b@.subrange(pos + 1, pos + 1 + dec(h as nat).len()) == dec(h as nat));
                        }
                    }
                    return None;
                },
            };
            if hi > 0xffff_ffff || e1 >= b.len() || b[e1] != 95 {
                proof {
                    assert forall|k: u64| #[trigger] quoted_key_at(b@, pos as int, k, st) implies false by {
                        lemma_pair_split(k);
                        let h = (k as nat / 0x1_0000_0000) as u64;
                        assert(b@.subrange(pos + 1, pos + 1 + dec(h as nat).len()) == dec(h as nat));
                    }
                }
                return None;
            }
            let (lo, e2) = match read_decimal(b, e1 + 1) {
                Some(x) => x,
                None => {
                    proof {
                        assert forall|k: u64| #[trigger] quoted_key_at(b@, pos as int, k, st) implies false by {
                            lemma_pair_split(k);
                            let h = (k as nat / 0x1_0000_0000) as u64;
                            let l = (k as nat % 0x1_0000_0000) as u64;
                            assert(b@.subrange(pos + 1, pos + 1 + dec(h as nat).len()) == dec(h as nat));
                            assert(b@.subrange(e1 + 1, e1 + 1 + dec(l as nat).len()) == dec(l as nat));
                        }
                    }
                    return None;
                },
            };
            if lo > 0xffff_ffff || e2 >= b.len() || b[e2] != 34 {
                proof {
                    assert forall|k: u64| #[trigger] quoted_key_at(b@, pos as int, k, st) implies false by {
                        lemma_pair_split(k);
                        let h = (k as nat / 0x1_0000_0000) as u64;
                        let l = (k as nat % 0x1_0000_0000) as u64;
                        assert(b@.subrange(pos + 1, pos + 1 + dec(h as nat).len()) == dec(h as nat));
                        assert(b@.subrange(e1 + 1, e1 + 1 + dec(l as nat).len()) == dec(l as nat));
                    }
                }
                return None;
            }
            let key = hi * 0x1_0000_0000u64 + lo;
            proof {
                lemma_pair_join(hi as nat, lo as nat);
                assert(b@.subrange(pos as int, e2 + 1) =~= seq![34u8] + enc_key(key, st) + seq![
                    34u8,
                ]);
                assert forall|k: u64| #[trigger] quoted_key_at(b@, pos as int, k, st) implies key == k && e2 + 1 == pos + enc_key(
                    k,
                    st,
                ).len() + 2 by {
                    lemma_pair_split(k);
                    let h = (k as nat / 0x1_0000_0000) as u64;
                    let l = (k as nat % 0x1_0000_0000) as u64;
                    assert(b@.subrange(pos + 1, pos + 1 + dec(h as nat).len()) == dec(h as nat));
                    assert(b@.subrange(e1 + 1, e1 + 1 + dec(l as nat).len()) == dec(l as nat));
                }
            }
            Some((key, e2 + 1))
        },
    }
}

/// The entry `en` stands at `pos` of `b`, and no digit follows it.
pub open spec fn entry_at(b: Seq<u8>, pos: int, en: (u64, u64), st: KeyStyle) -> bool {
    &&& pos + enc_entry(en, st).len() <= b.len()
    &&& b.subrange(pos, pos + enc_entry(en, st).len()) == enc_entry(en, st)
    &&& (pos + enc_entry(en, st).len() == b.len() || !is_digit(b[pos + enc_entry(en, st).len()]))
}

/// Reads one `"key":count` entry at `pos`.
fn read_entry(b: &[u8], pos: usize, st: KeyStyle) -> (r: Option<((u64, u64), usize)>)
    requires
        pos <= b@.len(),
    ensures
        r matches Some((en, e)) ==> e == pos + enc_entry(en, st).len() && entry_at(
            b@,
            pos as int,
            en,
            st,
        ),
        forall|en: (u64, u64)| #[trigger]
            entry_at(b@, pos as int, en, st) ==> r == Some(
                (en, (pos + enc_entry(en, st).len()) as usize),
            ),
{
    proof {
        assert forall|en: (u64, u64)| #[trigger] entry_at(b@, pos as int, en, st) implies {
            let q = enc_key(en.0, st).len() as int;
            let d = dec(en.1 as nat);
            &&& quoted_key_at(b@, pos as int, en.0, st)
            &&& b@[pos + q + 2] == 58u8
            &&& b@.subrange(pos + q + 3, pos + q + 3 + d.len()) == d
            &&& (pos + q + 3 + d.len() == b@.len() || !is_digit(b@[pos + q + 3 + d.len()]))
        } by {
            let t = enc_entry(en, st);
            let q = enc_key(en.0, st).len() as int;
            let d = dec(en.1 as nat);
            lemma_window(b@, pos as int, t, 0, q + 2);
            lemma_window(b@, pos as int, t, q + 3, t.len() as int);
            assert(t.subrange(0, q + 2) =~= seq![34u8] + enc_key(en.0, st) + seq![34u8]);
            assert(t.subrange(q + 3, t.len() as int) =~= d);
            assert(t[q + 2] == 58u8);
        }
    }
    let (k, e) = match read_key(b, pos, st) {
        Some(x) => x,
        None => {
            return None;
        },
    };
    if e >= b.len() || b[e] != 58 {
        return None;
    }
    let (c, e2) = match read_decimal(b, e + 1) {
        Some(x) => x,
        None => {
            proof {
                assert forall|en: (u64, u64)| #[trigger] entry_at(b@, pos as int, en, st) implies false by {
                    let d = dec(en.1 as nat);
                    assert(b@.subrange(e + 1, e + 1 + d.len()) == d);
                }
            }
            return None;
        },
    };
    proof {
        let t = enc_entry((k, c), st);
        assert(b@.subrange(pos as int, e2 as int) =~= t) by {
            assert(b@.subrange(pos as int, e2 as int) =~= b@.subrange(pos as int, e as int) + seq![
                58u8,
            ] + b@.subrange(e + 1, e2 as int));
        }
        assert forall|en: (u64, u64)| #[trigger] entry_at(b@, pos as int, en, st) implies en == (
            k,
            c,
        ) && e2 == pos + enc_entry(en, st).len() by {
            let d = dec(en.1 as nat);
            assert(b@.subrange(e + 1, e + 1 + d.len()) == d);
        }
    }
    Some(((k, c), e2))
}

proof fn lemma_list_step(s: Seq<(u64, u64)>, j: int, st: KeyStyle)
    requires
        0 <= j < s.len(),
    ensures
        enc_list(s.subrange(0, j + 1), st) == enc_list(s.subrange(0, j), st) + (if j > 0 {
            seq![44u8]
        } else {
            Seq::empty()
        }) + enc_entry(s[j], st),
{
    let u = s.subrange(0, j + 1);
    assert(u.drop_last() =~= s.subrange(0, j));
    if j == 0 {
        assert(enc_list(s.subrange(0, j), st) == Seq::<u8>::empty());
        assert(enc_list(u, st) =~= Seq::<u8>::empty() + Seq::<u8>::empty() + enc_entry(s[j], st));
    }
}

proof fn lemma_list_prefix(s: Seq<(u64, u64)>, m: int, st: KeyStyle)
    requires
        1 <= m <= s.len(),
    ensures
        enc_list(s.subrange(0, m), st).len() <= enc_list(s, st).len(),
        enc_list(s, st).subrange(0, enc_list(s.subrange(0, m), st).len() as int) == enc_list(
            s.subrange(0, m),
            st,
        ),
        m < s.len() ==> enc_list(s.subrange(0, m), st).len() < enc_list(s, st).len(),
        m < s.len() ==> enc_list(s, st)[enc_list(s.subrange(0, m), st).len() as int] == 44u8,
    decreases s.len(),
{
    let l = enc_list(s.subrange(0, m), st);
    if m == s.len() {
        assert(s.subrange(0, m) == s);
        assert(enc_list(s, st).subrange(0, l.len() as int) =~= l);
    } else {
        let t = s.drop_last();
        assert(enc_list(s, st) == enc_list(t, st) + seq![44u8] + enc_entry(s.last(), st));
        assert(t.subrange(0, m) =~= s.subrange(0, m));
        if m < t.len() {
            lemma_list_prefix(t, m, st);
        } else {
            assert(t.subrange(0, m) =~= t);
        }
        assert(enc_list(s, st).subrange(0, l.len() as int) =~= enc_list(t, st).subrange(
            0,
            l.len() as int,
        ));
    }
}

fn push_entry(out: &mut Vec<u8>, en: (u64, u64), st: KeyStyle)
    ensures
        final(out)@ == old(out)@ + enc_entry(en, st),
{
    out.push(34u8);
    match st {
        KeyStyle::Plain => {
            push_decimal(out, en.0);
        },
        KeyStyle::Pair => {
            push_decimal(out, en.0 / 0x1_0000_0000u64);
            out.push(95u8);
            push_decimal(out, en.0 % 0x1_0000_0000u64);
        },
    }
    out.push(34u8);
    out.push(58u8);
    push_decimal(out, en.1);
    assert(final(out)@ =~= old(out)@ + enc_entry(en, st));
}

/// The text of a histogram: its entries in order, as `{"key":count,...}`.
pub fn encode_histogram(h: &Histogram, st: KeyStyle) -> (r: Vec<u8>)
    ensures
        r@ == enc_object(h.entry_seq(), st),
{
    let entries = h.entries();
    let mut out: Vec<u8> = Vec::new();
    out.push(123u8);
    let mut i: usize = 0;
    while i < entries.len()
        invariant
            0 <= i <= entries@.len(),
            entries@ == h.entry_seq(),
            out@ == seq![123u8] + enc_list(entries@.subrange(0, i as int), st),
        decreases entries@.len() - i,
    {
        proof {
            lemma_list_step(entries@, i as int, st);
        }
        if i > 0 {
            out.push(44u8);
        }
        push_entry(&mut out, entries[i], st);
        i += 1;
        assert(out@ =~= seq![123u8] + enc_list(entries@.subrange(0, i as int), st));
    }
    out.push(125u8);
    assert(entries@.subrange(0, i as int) == entries@);
    assert(out@ =~= enc_object(h.entry_seq(), st));
    out
}

proof fn lemma_next_entry(b: Seq<u8>, s: Seq<(u64, u64)>, entries: Seq<(u64, u64)>, pos: int, st: KeyStyle)
    requires
        encodes(b, s, st),
        entries.len() < s.len(),
        entries == s.subrange(0, entries.len() as int),
        1 <= pos <= b.len(),
        b.subrange(0, pos) == seq![123u8] + enc_list(entries, st) + (if entries.len() > 0 {
            seq![44u8]
        } else {
            Seq::empty()
        }),
    ensures
        entry_at(b, pos, s[entries.len() as int], st),
{
    let j = entries.len() as int;
    lemma_list_prefix(s, j + 1, st);
    lemma_list_step(s, j, st);
    let pre = enc_list(s.subrange(0, j + 1), st);
    let full = enc_list(s, st);
    let t = enc_entry(s[j], st);
    assert(b.subrange(0, pos).len() == pos);
    assert(pos + t.len() == 1 + pre.len());
    assert(b == seq![123u8] + full + seq![125u8]);
    assert forall|i: int| 0 <= i < t.len() implies b[pos + i] == t[i] by {
        assert(b[pos + i] == full[pos + i - 1]);
        assert(full[pos + i - 1] == pre[pos + i - 1]);
    }
    assert(b.subrange(pos, pos + t.len()) =~= t);
    if j + 1 < s.len() {
        assert(b[1 + pre.len() as int] == full[pre.len() as int]);
    }
}

proof fn lemma_after_entry(b: Seq<u8>, s: Seq<(u64, u64)>, j: int, e: int, st: KeyStyle)
    requires
        encodes(b, s, st),
        0 <= j < s.len(),
        0 <= e <= b.len(),
        b.subrange(0, e) == seq![123u8] + enc_list(s.subrange(0, j + 1), st),
    ensures
        j + 1 < s.len() ==> e < b.len() && b[e] == 44u8,
        j + 1 == s.len() ==> e + 1 == b.len(),
{
    lemma_list_prefix(s, j + 1, st);
    let pre = enc_list(s.subrange(0, j + 1), st);
    let full = enc_list(s, st);
    assert(b.subrange(0, e).len() == e);
    assert(e == 1 + pre.len());
    assert(b == seq![123u8] + full + seq![125u8]);
    if j + 1 < s.len() {
        assert(b[e] == full[pre.len() as int]);
    } else {
        assert(s.subrange(0, j + 1) == s);
    }
}

/// The text `b` is the encoding of the distinct-key entries `s`.
pub open spec fn encodes(b: Seq<u8>, s: Seq<(u64, u64)>, st: KeyStyle) -> bool {
    keys_distinct(s) && enc_object(s, st) == b
}

/// Reads a histogram back from its text. Exactly the texts that
/// `encode_histogram` produces are accepted, and each gives back the entries
/// it was made from.
#[verifier::rlimit(40)]
pub fn decode_histogram(b: &[u8], st: KeyStyle) -> (r: Option<Histogram>)
    ensures
        r matches Some(h) ==> h.wf() && encodes(b@, h.entry_seq(), st),
        forall|s: Seq<(u64, u64)>| #[trigger]
            encodes(b@, s, st) ==> (r matches Some(h) && h.entry_seq() == s),
{
    proof {
        assert forall|s: Seq<(u64, u64)>| #[trigger] encodes(b@, s, st) implies b@.len() >= 2 && b@[0]
            == 123u8 && b@[b@.len() - 1] == 125u8 && (s.len() == 0 <==> b@.len() == 2) && (s.len()
            > 0 ==> b@[1] == 34u8) by {
            if s.len() > 0 {
                lemma_list_prefix(s, 1, st);
                assert(s.subrange(0, 1).drop_last().len() == 0);
                assert(enc_list(s.subrange(0, 1), st) == enc_entry(s[0], st));
                assert(b@[1] == enc_list(s, st)[0]);
                assert(enc_list(s, st)[0] == enc_entry(s[0], st)[0]);
            }
        }
    }
    if b.len() < 2 || b[0] != 123 {
        return None;
    }
    if b[1] == 125 {
        if b.len() == 2 {
            let h = Histogram::new();
            proof {
                h.lemma_entry_seq();
                assert(enc_object(h.entry_seq(), st) =~= b@);
                assert forall|s: Seq<(u64, u64)>| #[trigger] encodes(b@, s, st) implies h.entry_seq()
                    == s by {
                    assert(s.len() == 0);
                }
            }
            return Some(h);
        }
        return None;
    }
    let mut entries: Vec<(u64, u64)> = Vec::new();
    let mut pos: usize = 1;
    loop
        invariant
            1 <= pos <= b@.len(),
            b@.len() >= 2,
            b@[0] == 123u8,
            b@[1] != 125u8,
            b@.subrange(0, pos as int) == seq![123u8] + enc_list(entries@, st) + (if entries@.len()
                > 0 {
                seq![44u8]
            } else {
                Seq::empty()
            }),
            forall|s: Seq<(u64, u64)>| #[trigger]
                encodes(b@, s, st) ==> entries@.len() < s.len() && entries@ == s.subrange(
                    0,
                    entries@.len() as int,
                ),
        decreases b@.len() - pos,
    {
        let ghost j = entries@.len() as int;
        proof {
            assert forall|s: Seq<(u64, u64)>| #[trigger] encodes(b@, s, st) implies entry_at(
                b@,
                pos as int,
                s[j],
                st,
            ) by {
                lemma_next_entry(b@, s, entries@, pos as int, st);
            }
        }
        let (en, e) = match read_entry(b, pos, st) {
            Some(x) => x,
            None => {
                return None;
            },
        };
        let ghost old_entries = entries@;
        entries.push(en);
        proof {
            assert(b@.subrange(0, e as int) =~= b@.subrange(0, pos as int) + enc_entry(en, st));
            assert(entries@.drop_last() == old_entries);
            if old_entries.len() == 0 {
                assert(enc_list(entries@, st) == enc_entry(en, st));
                assert(b@.subrange(0, e as int) =~= seq![123u8] + enc_list(entries@, st));
            } else {
                assert(b@.subrange(0, e as int) =~= seq![123u8] + enc_list(entries@, st));
            }
            assert forall|s: Seq<(u64, u64)>| #[trigger] encodes(b@, s, st) implies entries@ == s.subrange(
                0,
                j + 1,
            ) && (j + 1 < s.len() ==> e < b@.len() && b@[e as int] == 44u8) && (j + 1 == s.len()
                ==> e + 1 == b@.len()) by {
                assert(en == s[j]);
                assert(entries@ =~= s.subrange(0, j + 1));
                lemma_after_entry(b@, s, j, e as int, st);
            }
        }
        if e < b.len() && b[e] == 44 {
            pos = e + 1;
            proof {
                assert(b@.subrange(0, pos as int) =~= b@.subrange(0, e as int) + seq![44u8]);
            }
        } else if e < b.len() && b[e] == 125 && e + 1 == b.len() {
            proof {
                assert(b@ =~= b@.subrange(0, e as int) + seq![125u8]);
                assert(b@ =~= enc_object(entries@, st));
            }
            let r = Histogram::from_entries(entries);
            proof {
                assert forall|s: Seq<(u64, u64)>| #[trigger] encodes(b@, s, st) implies entries@
                    == s by {
                    assert(s.subrange(0, j + 1) =~= s);
                }
                if exists|s: Seq<(u64, u64)>| #[trigger] encodes(b@, s, st) {
                    let s = choose|s: Seq<(u64, u64)>| #[trigger] encodes(b@, s, st);
                    assert(entries@ == s);
                }
            }
            return r;
        } else {
            return None;
        }
    }
}

/// Numbers separated by commas.
pub open spec fn enc_nums(s: Seq<u64>) -> Seq<u8>
    decreases s.len(),
{
    if s.len() == 0 {
        Seq::empty()
    } else if s.len() == 1 {
        dec(s[0] as nat)
    } else {
        enc_nums(s.drop_last()) + seq![44u8] + dec(s.last() as nat)
    }
}

/// The text of a list of numbers: `[n,n,...]`.
pub open spec fn enc_array(s: Seq<u64>) -> Seq<u8> {
    seq![91u8] + enc_nums(s) + seq![93u8]
}

proof fn lemma_nums_step(s: Seq<u64>, j: int)
    requires
        0 <= j < s.len(),
    ensures
        enc_nums(s.subrange(0, j + 1)) == enc_nums(s.subrange(0, j)) + (if j > 0 {
            seq![44u8]
        } else {
            Seq::empty()
        }) + dec(s[j] as nat),
{
    let u = s.subrange(0, j + 1);
    assert(u.drop_last() =~= s.subrange(0, j));
    if j == 0 {
        assert(enc_nums(s.subrange(0, j)) == Seq::<u8>::empty());
        assert(enc_nums(u) =~= Seq::<u8>::empty() + Seq::<u8>::empty() + dec(s[j] as nat));
    }
}

proof fn lemma_nums_prefix(s: Seq<u64>, m: int)
    requires
        1 <= m <= s.len(),
    ensures
        enc_nums(s.subrange(0, m)).len() <= enc_nums(s).len(),
        enc_nums(s).subrange(0, enc_nums(s.subrange(0, m)).len() as int) == enc_nums(
            s.subrange(0, m),
        ),
        m < s.len() ==> enc_nums(s.subrange(0, m)).len() < enc_nums(s).len(),
        m < s.len() ==> enc_nums(s)[enc_nums(s.subrange(0, m)).len() as int] == 44u8,
    decreases s.len(),
{
    let l = enc_nums(s.subrange(0, m));
    if m == s.len() {
        assert(s.subrange(0, m) == s);
        assert(enc_nums(s).subrange(0, l.len() as int) =~= l);
    } else {
        let t = s.drop_last();
        assert(enc_nums(s) == enc_nums(t) + seq![44u8] + dec(s.last() as nat));
        assert(t.subrange(0, m) =~= s.subrange(0, m));
        if m < t.len() {
            lemma_nums_prefix(t, m);
        } else {
            assert(t.subrange(0, m) =~= t);
        }
        assert(enc_nums(s).subrange(0, l.len() as int) =~= enc_nums(t).subrange(0, l.len() as int));
    }
}

proof fn lemma_next_num(b: Seq<u8>, s: Seq<u64>, got: Seq<u64>, pos: int)
    requires
        enc_array(s) == b,
        got.len() < s.len(),
        got == s.subrange(0, got.len() as int),
        1 <= pos <= b.len(),
        b.subrange(0, pos) == seq![91u8] + enc_nums(got) + (if got.len() > 0 {
            seq![44u8]
        } else {
            Seq::empty()
        }),
    ensures
        ({
            let d = dec(s[got.len() as int] as nat);
            &&& pos + d.len() <= b.len()
            &&& b.subrange(pos, pos + d.len()) == d
            &&& (pos + d.len() == b.len() || !is_digit(b[pos + d.len()]))
        }),
{
    let j = got.len() as int;
    lemma_nums_prefix(s, j + 1);
    lemma_nums_step(s, j);
    let pre = enc_nums(s.subrange(0, j + 1));
    let full = enc_nums(s);
    let t = dec(s[j] as nat);
    assert(b.subrange(0, pos).len() == pos);
    assert(pos + t.len() == 1 + pre.len());
    assert(b == seq![91u8] + full + seq![93u8]);
    assert forall|i: int| 0 <= i < t.len() implies b[pos + i] == t[i] by {
        assert(b[pos + i] == full[pos + i - 1]);
        assert(full[pos + i - 1] == pre[pos + i - 1]);
    }
    assert(b.subrange(pos, pos + t.len()) =~= t);
    if j + 1 < s.len() {
        assert(b[1 + pre.len() as int] == full[pre.len() as int]);
    }
}

proof fn lemma_after_num(b: Seq<u8>, s: Seq<u64>, j: int, e: int)
    requires
        enc_array(s) == b,
        0 <= j < s.len(),
        0 <= e <= b.len(),
        b.subrange(0, e) == seq![91u8] + enc_nums(s.subrange(0, j + 1)),
    ensures
        j + 1 < s.len() ==> e < b.len() && b[e] == 44u8,
        j + 1 == s.len() ==> e + 1 == b.len(),
{
    lemma_nums_prefix(s, j + 1);
    let pre = enc_nums(s.subrange(0, j + 1));
    let full = enc_nums(s);
    assert(b.subrange(0, e).len() == e);
    assert(e == 1 + pre.len());
    assert(b == seq![91u8] + full + seq![93u8]);
    if j + 1 < s.len() {
        assert(b[e] == full[pre.len() as int]);
    } else {
        assert(s.subrange(0, j + 1) == s);
    }
}

/// The text of a list of numbers, `[n,n,...]`.
pub fn encode_numbers(v: &[u64]) -> (r: Vec<u8>)
    ensures
        r@ == enc_array(v@),
{
    let mut out: Vec<u8> = Vec::new();
    out.push(91u8);
    let mut i: usize = 0;
    while i < v.len()
        invariant
            0 <= i <= v@.len(),
            out@ == seq![91u8] + enc_nums(v@.subrange(0, i as int)),
        decreases v@.len() - i,
    {
        proof {
            lemma_nums_step(v@, i as int);
        }
        if i > 0 {
            out.push(44u8);
        }
        push_decimal(&mut out, v[i]);
        i += 1;
        assert(out@ =~= seq![91u8] + enc_nums(v@.subrange(0, i as int)));
    }
    out.push(93u8);
    assert(v@.subrange(0, i as int) == v@);
    assert(out@ =~= enc_array(v@));
    out
}

/// Reads a non-empty list of numbers back from its text. Exactly the texts
/// that `encode_numbers` produces for a non-empty list are accepted.
#[verifier::rlimit(40)]
pub fn decode_numbers(b: &[u8]) -> (r: Option<Vec<u64>>)
    ensures
        r matches Some(v) ==> v@.len() > 0 && enc_array(v@) == b@,
        forall|s: Seq<u64>| s.len() > 0 && #[trigger] enc_array(s) == b@ ==> (r matches Some(v)
            && v@ == s),
{
    if b.len() < 2 || b[0] != 91 {
        return None;
    }
    let mut got: Vec<u64> = Vec::new();
    let mut pos: usize = 1;
    loop
        invariant
            1 <= pos <= b@.len(),
            b@.len() >= 2,
            b@[0] == 91u8,
            b@.subrange(0, pos as int) == seq![91u8] + enc_nums(got@) + (if got@.len() > 0 {
                seq![44u8]
            } else {
                Seq::empty()
            }),
            forall|s: Seq<u64>|
                s.len() > 0 && #[trigger] enc_array(s) == b@ ==> got@.len() < s.len() && got@
                    == s.subrange(0, got@.len() as int),
        decreases b@.len() - pos,
    {
        let ghost j = got@.len() as int;
        proof {
            assert forall|s: Seq<u64>| s.len() > 0 && #[trigger] enc_array(s) == b@ implies ({
                let d = dec(s[j] as nat);
                &&& pos + d.len() <= b@.len()
                &&& b@.subrange(pos as int, pos + d.len()) == d
                &&& (pos + d.len() == b@.len() || !is_digit(b@[pos + d.len()]))
            }) by {
                lemma_next_num(b@, s, got@, pos as int);
            }
        }
        let (n, e) = match read_decimal(b, pos) {
            Some(x) => x,
            None => {
                return None;
            },
        };
        let ghost old_got = got@;
        got.push(n);
        proof {
            assert(b@.subrange(0, e as int) =~= b@.subrange(0, pos as int) + dec(n as nat));
            assert(got@.drop_last() == old_got);
            if old_got.len() == 0 {
                assert(enc_nums(got@) == dec(n as nat));
            }
            assert(b@.subrange(0, e as int) =~= seq![91u8] + enc_nums(got@));
            assert forall|s: Seq<u64>| s.len() > 0 && #[trigger] enc_array(s) == b@ implies got@
                == s.subrange(0, j + 1) && (j + 1 < s.len() ==> e < b@.len() && b@[e as int]
                == 44u8) && (j + 1 == s.len() ==> e + 1 == b@.len()) by {
                assert(n == s[j]);
                assert(got@ =~= s.subrange(0, j + 1));
                lemma_after_num(b@, s, j, e as int);
            }
        }
        if e < b.len() && b[e] == 44 {
            pos = e + 1;
            proof {
                assert(b@.subrange(0, pos as int) =~= b@.subrange(0, e as int) + seq![44u8]);
            }
        } else if e < b.len() && b[e] == 93 && e + 1 == b.len() {
            proof {
                assert(b@ =~= b@.subrange(0, e as int) + seq![93u8]);
                assert(b@ =~= enc_array(got@));
                assert forall|s: Seq<u64>| s.len() > 0 && #[trigger] enc_array(s) == b@ implies got@
                    == s by {
                    assert(s.subrange(0, j + 1) =~= s);
                }
            }
            return Some(got);
        } else {
            return None;
        }
    }
}

/// No byte of `s` is `c`.
pub open spec fn free_of(s: Seq<u8>, c: u8) -> bool {
    forall|i: int| 0 <= i < s.len() ==> s[i] != c
}

proof fn lemma_split_first(a1: Seq<u8>, b1: Seq<u8>, a2: Seq<u8>, b2: Seq<u8>, c: u8)
    requires
        a1 + seq![c] + b1 == a2 + seq![c] + b2,
        free_of(a1, c),
        free_of(a2, c),
    ensures
        a1 == a2,
        b1 == b2,
{
    let t = a1 + seq![c] + b1;
    let u = a2 + seq![c] + b2;
    if a1.len() < a2.len() {
        assert(t[a1.len() as int] == c);
        assert(u[a1.len() as int] == a2[a1.len() as int]);
    } else if a2.len() < a1.len() {
        assert(u[a2.len() as int] == c);
        assert(t[a2.len() as int] == a1[a2.len() as int]);
    }
    assert(a1 =~= t.subrange(0, a1.len() as int));
    assert(a2 =~= u.subrange(0, a2.len() as int));
    assert(b1 =~= t.subrange(a1.len() + 1int, t.len() as int));
    assert(b2 =~= u.subrange(a2.len() + 1int, u.len() as int));
}

proof fn lemma_split_last(a1: Seq<u8>, b1: Seq<u8>, a2: Seq<u8>, b2: Seq<u8>, c: u8)
    requires
        a1 + seq![c] + b1 == a2 + seq![c] + b2,
        free_of(b1, c),
        free_of(b2, c),
    ensures
        a1 == a2,
        b1 == b2,
{
    let t = a1 + seq![c] + b1;
    let u = a2 + seq![c] + b2;
    assert(t.len() == u.len());
    if a1.len() < a2.len() {
        assert(u[a2.len() as int] == c);
        assert(t[a2.len() as int] == b1[a2.len() - a1.len() - 1]);
    } else if a2.len() < a1.len() {
        assert(t[a1.len() as int] == c);
        assert(u[a1.len() as int] == b2[a1.len() - a2.len() - 1]);
    }
    assert(a1 =~= t.subrange(0, a1.len() as int));
    assert(a2 =~= u.subrange(0, a2.len() as int));
    assert(b1 =~= t.subrange(a1.len() + 1int, t.len() as int));
    assert(b2 =~= u.subrange(a2.len() + 1int, u.len() as int));
}

proof fn lemma_dec_free(n: nat, c: u8)
    requires
        !is_digit(c),
    ensures
        free_of(dec(n), c),
{
    lemma_dec_props(n);
}

proof fn lemma_dec_injective(a: nat, b: nat)
    requires
        dec(a) == dec(b),
    ensures
        a == b,
{
    lemma_dec_props(a);
    lemma_dec_props(b);
}

proof fn lemma_key_free(k: u64, st: KeyStyle)
    ensures
        free_of(enc_key(k, st), 34u8),
        free_of(enc_key(k, st), 44u8),
{
    let hi = dec(k as nat / 0x1_0000_0000);
    let lo = dec(k as nat % 0x1_0000_0000);
    lemma_dec_free(k as nat, 34u8);
    lemma_dec_free(k as nat, 44u8);
    lemma_dec_free(k as nat / 0x1_0000_0000, 34u8);
    lemma_dec_free(k as nat / 0x1_0000_0000, 44u8);
    lemma_dec_free(k as nat % 0x1_0000_0000, 34u8);
    lemma_dec_free(k as nat % 0x1_0000_0000, 44u8);
    if st == KeyStyle::Pair {
        let t = hi + seq![95u8] + lo;
        assert forall|i: int| 0 <= i < t.len() implies t[i] != 34u8 && t[i] != 44u8 by {
            if i < hi.len() {
                assert(t[i] == hi[i]);
            } else if i > hi.len() {
                assert(t[i] == lo[i - hi.len() - 1]);
            }
        }
    }
}

proof fn lemma_entry_free(e: (u64, u64), st: KeyStyle)
    ensures
        free_of(enc_entry(e, st), 44u8),
{
    let k = enc_key(e.0, st);
    let d = dec(e.1 as nat);
    lemma_key_free(e.0, st);
    lemma_dec_free(e.1 as nat, 44u8);
    let t = enc_entry(e, st);
    assert forall|i: int| 0 <= i < t.len() implies t[i] != 44u8 by {
        if 1 <= i < 1 + k.len() {
            assert(t[i] == k[i - 1]);
        } else if i >= k.len() + 3 {
            assert(t[i] == d[i - k.len() - 3]);
        }
    }
}

proof fn lemma_key_injective(a: u64, b: u64, st: KeyStyle)
    requires
        enc_key(a, st) == enc_key(b, st),
    ensures
        a == b,
{
    match st {
        KeyStyle::Plain => {
            lemma_dec_injective(a as nat, b as nat);
        },
        KeyStyle::Pair => {
            lemma_dec_free(a as nat / 0x1_0000_0000, 95u8);
            lemma_dec_free(b as nat / 0x1_0000_0000, 95u8);
            lemma_split_first(
                dec(a as nat / 0x1_0000_0000),
                dec(a as nat % 0x1_0000_0000),
                dec(b as nat / 0x1_0000_0000),
                dec(b as nat % 0x1_0000_0000),
                95u8,
            );
            lemma_dec_injective(a as nat / 0x1_0000_0000, b as nat / 0x1_0000_0000);
            lemma_dec_injective(a as nat % 0x1_0000_0000, b as nat % 0x1_0000_0000);
            lemma_pair_split(a);
            lemma_pair_split(b);
        },
    }
}

proof fn lemma_entry_injective(a: (u64, u64), b: (u64, u64), st: KeyStyle)
    requires
        enc_entry(a, st) == enc_entry(b, st),
    ensures
        a == b,
{
    let ta = enc_entry(a, st);
    let tb = enc_entry(b, st);
    let ra = seq![58u8] + dec(a.1 as nat);
    let rb = seq![58u8] + dec(b.1 as nat);
    assert(ta.drop_first() =~= enc_key(a.0, st) + seq![34u8] + ra);
    assert(tb.drop_first() =~= enc_key(b.0, st) + seq![34u8] + rb);
    lemma_key_free(a.0, st);
    lemma_key_free(b.0, st);
    lemma_split_first(enc_key(a.0, st), ra, enc_key(b.0, st), rb, 34u8);
    lemma_key_injective(a.0, b.0, st);
    assert(ra.drop_first() =~= dec(a.1 as nat));
    assert(rb.drop_first() =~= dec(b.1 as nat));
    lemma_dec_injective(a.1 as nat, b.1 as nat);
}

proof fn lemma_list_has_comma(s: Seq<(u64, u64)>, st: KeyStyle)
    requires
        s.len() >= 2,
    ensures
        !free_of(enc_list(s, st), 44u8),
{
    let l = enc_list(s.drop_last(), st);
    assert(enc_list(s, st)[l.len() as int] == 44u8);
}

proof fn lemma_list_injective(s1: Seq<(u64, u64)>, s2: Seq<(u64, u64)>, st: KeyStyle)
    requires
        enc_list(s1, st) == enc_list(s2, st),
    ensures
        s1 == s2,
    decreases s1.len() + s2.len(),
{
    if s1.len() == 0 || s2.len() == 0 {
        if s1.len() > 0 {
            lemma_enc_entry_len(s1, st);
        }
        if s2.len() > 0 {
            lemma_enc_entry_len(s2, st);
        }
        assert(s1 =~= s2);
    } else if s1.len() == 1 && s2.len() == 1 {
        lemma_entry_injective(s1[0], s2[0], st);
        assert(s1 =~= s2);
    } else if s1.len() == 1 {
        lemma_entry_free(s1[0], st);
        lemma_list_has_comma(s2, st);
    } else if s2.len() == 1 {
        lemma_entry_free(s2[0], st);
        lemma_list_has_comma(s1, st);
    } else {
        lemma_entry_free(s1.last(), st);
        lemma_entry_free(s2.last(), st);
        lemma_split_last(
            enc_list(s1.drop_last(), st),
            enc_entry(s1.last(), st),
            enc_list(s2.drop_last(), st),
            enc_entry(s2.last(), st),
            44u8,
        );
        lemma_list_injective(s1.drop_last(), s2.drop_last(), st);
        lemma_entry_injective(s1.last(), s2.last(), st);
        assert(s1 =~= s2.drop_last().push(s2.last()));
    }
}

proof fn lemma_enc_entry_len(s: Seq<(u64, u64)>, st: KeyStyle)
    requires
        s.len() > 0,
    ensures
        enc_list(s, st).len() > 0,
    decreases s.len(),
{
    if s.len() > 1 {
        lemma_enc_entry_len(s.drop_last(), st);
    }
}

/// Distinct entry lists have distinct texts.
pub proof fn lemma_enc_object_injective(s1: Seq<(u64, u64)>, s2: Seq<(u64, u64)>, st: KeyStyle)
    requires
        enc_object(s1, st) == enc_object(s2, st),
    ensures
        s1 == s2,
{
    let a = enc_object(s1, st);
    let b = enc_object(s2, st);
    assert(enc_list(s1, st) =~= a.subrange(1, a.len() - 1));
    assert(enc_list(s2, st) =~= b.subrange(1, b.len() - 1));
    lemma_list_injective(s1, s2, st);
}

proof fn lemma_nums_has_comma(s: Seq<u64>)
    requires
        s.len() >= 2,
    ensures
        !free_of(enc_nums(s), 44u8),
{
    let l = enc_nums(s.drop_last());
    assert(enc_nums(s)[l.len() as int] == 44u8);
}

proof fn lemma_nums_nonempty(s: Seq<u64>)
    requires
        s.len() > 0,
    ensures
        enc_nums(s).len() > 0,
    decreases s.len(),
{
    if s.len() > 1 {
        lemma_nums_nonempty(s.drop_last());
    } else {
        lemma_dec_props(s[0] as nat);
    }
}

proof fn lemma_nums_injective(s1: Seq<u64>, s2: Seq<u64>)
    requires
        enc_nums(s1) == enc_nums(s2),
    ensures
        s1 == s2,
    decreases s1.len() + s2.len(),
{
    if s1.len() == 0 || s2.len() == 0 {
        if s1.len() > 0 {
            lemma_nums_nonempty(s1);
        }
        if s2.len() > 0 {
            lemma_nums_nonempty(s2);
        }
        assert(s1 =~= s2);
    } else if s1.len() == 1 && s2.len() == 1 {
        lemma_dec_injective(s1[0] as nat, s2[0] as nat);
        assert(s1 =~= s2);
    } else if s1.len() == 1 {
        lemma_dec_free(s1[0] as nat, 44u8);
        lemma_nums_has_comma(s2);
    } else if s2.len() == 1 {
        lemma_dec_free(s2[0] as nat, 44u8);
        lemma_nums_has_comma(s1);
    } else {
        lemma_dec_free(s1.last() as nat, 44u8);
        lemma_dec_free(s2.last() as nat, 44u8);
        lemma_split_last(
            enc_nums(s1.drop_last()),
            dec(s1.last() as nat),
            enc_nums(s2.drop_last()),
            dec(s2.last() as nat),
            44u8,
        );
        lemma_nums_injective(s1.drop_last(), s2.drop_last());
        lemma_dec_injective(s1.last() as nat, s2.last() as nat);
        assert(s1 =~= s2.drop_last().push(s2.last()));
    }
}

/// Distinct number lists have distinct texts.
pub proof fn lemma_enc_array_injective(s1: Seq<u64>, s2: Seq<u64>)
    requires
        enc_array(s1) == enc_array(s2),
    ensures
        s1 == s2,
{
    let a = enc_array(s1);
    let b = enc_array(s2);
    assert(enc_nums(s1) =~= a.subrange(1, a.len() - 1));
    assert(enc_nums(s2) =~= b.subrange(1, b.len() - 1));
    lemma_nums_injective(s1, s2);
}

} // verus!
