//! The claim set carried by a session token, written as a compact JSON
//! object `{"sub":"...","exp":N,"iat":N}`, and read back from those bytes.

use vstd::prelude::*;
use vstd::utf8::{decode_utf8, encode_utf8, encode_utf8_decode_utf8, encode_utf8_valid_utf8, is_ascii_chars, is_ascii_chars_encode_utf8, valid_utf8};

verus! {

/// `"`
pub const QUOTE: u8 = 34;

/// `\`
pub const BACKSLASH: u8 = 92;

/// Decimal digits of `n`, most significant first, without leading zeros.
pub open spec fn dec(n: nat) -> Seq<u8>
    decreases n,
{
    if n < 10 {
        seq![(48 + n) as u8]
    } else {
        dec(n / 10).push((48 + n % 10) as u8)
    }
}


pub open spec fn is_digit(b: u8) -> bool {
    48 <= b <= 57
}

/// The number that a run of decimal digits spells.
pub open spec fn digits_value(s: Seq<u8>) -> nat
    decreases s.len(),
{
    if s.len() == 0 {
        0
    } else {
        digits_value(s.drop_last()) * 10 + (s.last() - 48) as nat
    }
}

/// Digits only, at least one, and no leading zero unless the number is zero.
pub open spec fn canonical_digits(s: Seq<u8>) -> bool {
    &&& s.len() >= 1
    &&& forall|i: int| 0 <= i < s.len() ==> is_digit(#[trigger] s[i])
    &&& (s.len() == 1 || s[0] != 48)
}

/// `dec(n)` stands at `pos` in `b` and is not followed by another digit.
pub open spec fn dec_at(b: Seq<u8>, pos: int, n: nat) -> bool {
    let end = pos + dec(n).len();
    &&& 0 <= pos
    &&& end <= b.len()
    &&& b.subrange(pos, end) == dec(n)
    &&& (end == b.len() || !is_digit(b[end]))
}

proof fn lemma_dec(n: nat)
    ensures
        canonical_digits(dec(n)),
        digits_value(dec(n)) == n,
        n >= 10 ==> dec(n)[0] != 48,
    decreases n,
{
    if n < 10 {
        assert(dec(n).drop_last() =~= Seq::<u8>::empty());
        assert(digits_value(dec(n).drop_last()) == 0);
        assert(dec(n).last() == (48 + n) as u8);
    } else {
        lemma_dec(n / 10);
        let s = dec(n);
        assert(s.last() == (48 + n % 10) as u8);
        assert(s.drop_last() =~= dec(n / 10));
        assert(s[0] == dec(n / 10)[0]);
        if n / 10 < 10 {
            assert(dec(n / 10)[0] == (48 + n / 10) as u8);
        }
        assert forall|i: int| 0 <= i < s.len() implies is_digit(#[trigger] s[i]) by {
            if i < s.len() - 1 {
                assert(s[i] == dec(n / 10)[i]);
            }
        }
        assert(n == (n / 10) * 10 + n % 10);
        assert(digits_value(s) == digits_value(dec(n / 10)) * 10 + (s.last() - 48) as nat);
    }
}

proof fn lemma_digits_value_positive(s: Seq<u8>)
    requires
        s.len() >= 1,
        forall|i: int| 0 <= i < s.len() ==> is_digit(#[trigger] s[i]),
        s[0] != 48,
    ensures
        digits_value(s) >= 1,
    decreases s.len(),
{
    if s.len() > 1 {
        let t = s.drop_last();
        assert(t[0] == s[0]);
        assert forall|i: int| 0 <= i < t.len() implies is_digit(#[trigger] t[i]) by {
            assert(t[i] == s[i]);
        }
        lemma_digits_value_positive(t);
    }
}

proof fn lemma_canonical_dec(s: Seq<u8>)
    requires
        canonical_digits(s),
    ensures
        dec(digits_value(s)) == s,
    decreases s.len(),
{
    let d = (s.last() - 48) as nat;
    assert(is_digit(s[s.len() - 1]));
    if s.len() == 1 {
        assert(digits_value(s.drop_last()) == 0);
        assert(dec(digits_value(s)) =~= s);
    } else {
        let t = s.drop_last();
        assert forall|i: int| 0 <= i < t.len() implies is_digit(#[trigger] t[i]) by {
            assert(t[i] == s[i]);
        }
        assert(t[0] == s[0]);
        lemma_canonical_dec(t);
        let v = digits_value(t);
        lemma_digits_value_positive(t);
        assert(v >= 1);
        let n = v * 10 + d;
        assert(n / 10 == v && n % 10 == d) by (nonlinear_arith)
            requires
                n == v * 10 + d,
                d < 10,
        ;
        assert(dec(n) =~= s);
    }
}

proof fn lemma_digits_value_prefix(s: Seq<u8>, k: int)
    requires
        0 <= k <= s.len(),
        forall|i: int| 0 <= i < s.len() ==> is_digit(#[trigger] s[i]),
    ensures
        digits_value(s.take(k)) <= digits_value(s),
    decreases s.len(),
{
    if k < s.len() {
        let t = s.drop_last();
        assert forall|i: int| 0 <= i < t.len() implies is_digit(#[trigger] t[i]) by {
            assert(t[i] == s[i]);
        }
        lemma_digits_value_prefix(t, k);
        assert(t.take(k) =~= s.take(k));
    } else {
        assert(s.take(k) =~= s);
    }
}

fn push_decimal(out: &mut Vec<u8>, n: usize)
    ensures
        final(out)@ == old(out)@ + dec(n as nat),
    decreases n,
{
    if n >= 10 {
        push_decimal(out, n / 10);
    }
    out.push((48 + n % 10) as u8);
    assert(final(out)@ =~= old(out)@ + dec(n as nat));
}

/// Reads the decimal number at `pos`: a maximal run of digits with no
/// leading zero, whose value fits in `usize`.
fn read_decimal(b: &[u8], pos: usize) -> (r: Option<(usize, usize)>)
    requires
        pos <= b@.len(),
    ensures
        r matches Some((n, end)) ==> end == pos + dec(n as nat).len() && dec_at(b@, pos as int, n as nat),
        forall|n: usize| #[trigger] dec_at(b@, pos as int, n as nat) ==> r == Some((n, (pos + dec(n as nat).len()) as usize)),
{
    let mut p = pos;
    let mut v: usize = 0;
    while p < b.len() && 48 <= b[p] && b[p] <= 57
        invariant
            pos <= p <= b@.len(),
            forall|i: int| pos <= i < p ==> is_digit(#[trigger] b@[i]),
            v as nat == digits_value(b@.subrange(pos as int, p as int)),
            forall|n: usize| #[trigger] dec_at(b@, pos as int, n as nat) ==> p <= pos + dec(n as nat).len(),
        decreases b@.len() - p,
    {
        let d = (b[p] - 48) as usize;
        let ghost run = b@.subrange(pos as int, p as int + 1);
        assert(run.drop_last() =~= b@.subrange(pos as int, p as int));
        if v > (usize::MAX - d) / 10 {
            proof {
                assert forall|n: usize| #[trigger] dec_at(b@, pos as int, n as nat) implies false by {
                    lemma_dec(n as nat);
                    let s = dec(n as nat);
                    if p == pos + s.len() {
                        assert(!is_digit(b@[p as int]));
                    }
                    assert(run =~= s.take(p - pos + 1));
                    lemma_digits_value_prefix(s, p - pos + 1);
                }
            }
            return None;
        }
        v = v * 10 + d;
        p += 1;
        proof {
            assert forall|n: usize| #[trigger] dec_at(b@, pos as int, n as nat) implies p <= pos + dec(n as nat).len() by {
                let s = dec(n as nat);
                if p - 1 == pos + s.len() {
                    assert(!is_digit(b@[p - 1]));
                }
            }
        }
    }
    let ghost run = b@.subrange(pos as int, p as int);
    assert forall|n: usize| #[trigger] dec_at(b@, pos as int, n as nat) implies p == pos + dec(n as nat).len() && v == n by {
        lemma_dec(n as nat);
        let s = dec(n as nat);
        if p < pos + s.len() {
            assert(b@[p as int] == s[p - pos]);
        }
        assert(run =~= s);
    }
    if p == pos {
        proof {
            assert forall|n: usize| #[trigger] dec_at(b@, pos as int, n as nat) implies false by {
                lemma_dec(n as nat);
            }
        }
        return None;
    }
    if p - pos > 1 && b[pos] == 48 {
        proof {
            assert forall|n: usize| #[trigger] dec_at(b@, pos as int, n as nat) implies false by {
                lemma_dec(n as nat);
                assert(run[0] == b@[pos as int]);
            }
        }
        return None;
    }
    proof {
        assert forall|i: int| 0 <= i < run.len() implies is_digit(#[trigger] run[i]) by {
            assert(run[i] == b@[pos + i]);
        }
        assert(run[0] == b@[pos as int]);
        lemma_canonical_dec(run);
    }
    Some((v, p))
}

/// Lower-case hexadecimal digit of `d < 16`.
pub open spec fn hex_digit(d: nat) -> u8 {
    if d < 10 {
        (48 + d) as u8
    } else {
        (87 + d) as u8
    }
}

/// How one byte of the subject is written inside the JSON string: a quote or
/// a backslash behind a backslash, a control byte as `\u00XX`, any other
/// byte as itself.
pub open spec fn escape_byte(b: u8) -> Seq<u8> {
    if b == QUOTE || b == BACKSLASH {
        seq![BACKSLASH, b]
    } else if b < 32 {
        seq![BACKSLASH, 117u8, 48u8, 48u8, hex_digit(b as nat / 16), hex_digit(b as nat % 16)]
    } else {
        seq![b]
    }
}

pub open spec fn escape(s: Seq<u8>) -> Seq<u8>
    decreases s.len(),
{
    if s.len() == 0 {
        Seq::empty()
    } else {
        escape(s.drop_last()) + escape_byte(s.last())
    }
}

/// `escape(s)` stands at `pos` in `b` and a closing quote follows it.
pub open spec fn escaped_at(b: Seq<u8>, pos: int, s: Seq<u8>) -> bool {
    let end = pos + escape(s).len();
    &&& 0 <= pos
    &&& end < b.len()
    &&& b.subrange(pos, end) == escape(s)
    &&& b[end] == QUOTE
}

proof fn lemma_escape_append(a: Seq<u8>, c: Seq<u8>)
    ensures
        escape(a + c) == escape(a) + escape(c),
    decreases c.len(),
{
    if c.len() == 0 {
        assert(a + c =~= a);
        assert(escape(a) + escape(c) =~= escape(a));
    } else {
        lemma_escape_append(a, c.drop_last());
        assert((a + c).drop_last() =~= a + c.drop_last());
        assert(escape(a) + escape(c) =~= escape(a) + escape(c.drop_last()) + escape_byte(c.last()));
    }
}

/// Where `s` is escaped at `pos` and `out` is the first `k` bytes of `s`,
/// the bytes after `escape(out)` are those of the next escaped byte, or the
/// closing quote where `s` has no more.
proof fn lemma_escaped_step(b: Seq<u8>, pos: int, s: Seq<u8>, k: int)
    requires
        escaped_at(b, pos, s),
        0 <= k <= s.len(),
    ensures
        k == s.len() ==> b[pos + escape(s.take(k)).len()] == QUOTE,
        k < s.len() ==> {
            let p = pos + escape(s.take(k)).len();
            let e = escape_byte(s[k]);
            &&& p + e.len() < b.len()
            &&& b.subrange(p, p + e.len()) == e
        },
{
    if k == s.len() {
        assert(s.take(k) =~= s);
    } else {
        let t = s.take(k);
        let e = escape_byte(s[k]);
        let rest = s.skip(k + 1);
        assert(s =~= t + seq![s[k]] + rest);
        lemma_escape_append(t + seq![s[k]], rest);
        lemma_escape_append(t, seq![s[k]]);
        let one = seq![s[k]];
        assert(one.drop_last() =~= Seq::<u8>::empty());
        assert(one.last() == s[k]);
        assert(escape(one) == escape(one.drop_last()) + escape_byte(one.last()));
        assert(escape(one) =~= e);
        let p = pos + escape(t).len();
        assert(escape(s) == escape(t) + e + escape(rest));
        assert(b.subrange(p, p + e.len()) =~= escape(s).subrange(escape(t).len() as int, (escape(t).len() + e.len()) as int));
    }
}

fn hex_char(d: u8) -> (r: u8)
    requires
        d < 16,
    ensures
        r == hex_digit(d as nat),
{
    if d < 10 {
        48 + d
    } else {
        87 + d
    }
}

fn push_escaped(out: &mut Vec<u8>, s: &[u8])
    ensures
        final(out)@ == old(out)@ + escape(s@),
{
    let mut i: usize = 0;
    while i < s.len()
        invariant
            i <= s@.len(),
            out@ == old(out)@ + escape(s@.take(i as int)),
        decreases s@.len() - i,
    {
        let c = s[i];
        let ghost before = out@;
        if c == QUOTE || c == BACKSLASH {
            out.push(BACKSLASH);
            out.push(c);
        } else if c < 32 {
            out.push(BACKSLASH);
            out.push(117);
            out.push(48);
            out.push(48);
            out.push(hex_char(c / 16));
            out.push(hex_char(c % 16));
        } else {
            out.push(c);
        }
        assert(out@ =~= before + escape_byte(c));
        assert(s@.take(i + 1).drop_last() =~= s@.take(i as int));
        i += 1;
    }
    assert(s@.take(i as int) =~= s@);
}

/// Value of a lower-case hexadecimal digit.
fn hex_value(c: u8) -> (r: Option<u8>)
    ensures
        r matches Some(d) ==> d < 16 && hex_digit(d as nat) == c,
        forall|d: u8| d < 16 && #[trigger] hex_digit(d as nat) == c ==> r == Some(d),
{
    if 48 <= c && c <= 57 {
        Some(c - 48)
    } else if 97 <= c && c <= 102 {
        Some(c - 87)
    } else {
        None
    }
}

/// Reads the bytes of a JSON string body written by `push_escaped`, up to
/// its closing quote, which it does not consume.
fn read_escaped(b: &[u8], pos: usize) -> (r: Option<(Vec<u8>, usize)>)
    requires
        pos <= b@.len(),
    ensures
        r matches Some((s, end)) ==> end == pos + escape(s@).len() && escaped_at(b@, pos as int, s@),
        forall|s: Seq<u8>| #[trigger] escaped_at(b@, pos as int, s) ==> (r matches Some((t, end)) && t@ == s && end == pos + escape(s).len()),
{
    let mut out: Vec<u8> = Vec::new();
    let mut p = pos;
    loop
        invariant
            pos <= p <= b@.len(),
            p == pos + escape(out@).len(),
            b@.subrange(pos as int, p as int) == escape(out@),
            forall|s: Seq<u8>| #[trigger] escaped_at(b@, pos as int, s) ==> out@.len() <= s.len() && s.take(out@.len() as int) == out@,
        decreases b@.len() - p,
    {
        let ghost k = out@.len() as int;
        // Where some `s` is escaped here, the next bytes are its next escaped byte.
        assert forall|s: Seq<u8>| #[trigger] escaped_at(b@, pos as int, s) implies (k == s.len() ==> b@[p as int] == QUOTE) && (k < s.len() ==> {
            let e = escape_byte(s[k]);
            &&& p + e.len() < b@.len()
            &&& b@.subrange(p as int, p + e.len()) == e
        }) by {
            lemma_escaped_step(b@, pos as int, s, k);
        }
        if p >= b.len() {
            proof {
                assert forall|s: Seq<u8>| #[trigger] escaped_at(b@, pos as int, s) implies false by {
                    if k == s.len() {
                        assert(s.take(k) =~= s);
                    }
                }
            }
            return None;
        }
        let c = b[p];
        if c == QUOTE {
            proof {
                assert forall|s: Seq<u8>| #[trigger] escaped_at(b@, pos as int, s) implies s == out@ by {
                    if k < s.len() {
                        assert(b@.subrange(p as int, p + escape_byte(s[k]).len())[0] == c);
                    }
                    assert(s.take(k) == s);
                }
                assert(b@.subrange(pos as int, p as int) == escape(out@));
            }
            return Some((out, p));
        }
        if c < 32 {
            proof {
                assert forall|s: Seq<u8>| #[trigger] escaped_at(b@, pos as int, s) implies false by {
                    if k < s.len() {
                        assert(b@.subrange(p as int, p + escape_byte(s[k]).len())[0] == c);
                    }
                }
            }
            return None;
        }
        let ghost before = out@;
        if c != BACKSLASH {
            out.push(c);
            p += 1;
            proof {
                assert forall|s: Seq<u8>| #[trigger] escaped_at(b@, pos as int, s) implies out@.len() <= s.len() && s.take(out@.len() as int) == out@ by {
                    assert(b@.subrange(p - 1, p - 1 + escape_byte(s[k]).len())[0] == c);
                    assert(s.take(k + 1) =~= s.take(k).push(s[k]));
                }
                assert(out@.drop_last() =~= before);
                assert(b@.subrange(pos as int, p as int) =~= b@.subrange(pos as int, p - 1) + seq![c]);
            }
            continue;
        }
        if p + 1 >= b.len() {
            proof {
                assert forall|s: Seq<u8>| #[trigger] escaped_at(b@, pos as int, s) implies false by {
                    if k < s.len() {
                        assert(escape_byte(s[k]).len() >= 1);
                    }
                }
            }
            return None;
        }
        let d = b[p + 1];
        if d == QUOTE || d == BACKSLASH {
            out.push(d);
            p += 2;
            proof {
                assert forall|s: Seq<u8>| #[trigger] escaped_at(b@, pos as int, s) implies out@.len() <= s.len() && s.take(out@.len() as int) == out@ by {
                    let e = escape_byte(s[k]);
                    assert(b@.subrange(p - 2, p - 2 + e.len())[0] == c);
                    assert(b@.subrange(p - 2, p - 2 + e.len())[1] == d);
                    assert(s.take(k + 1) =~= s.take(k).push(s[k]));
                }
                assert(out@.drop_last() =~= before);
                assert(b@.subrange(pos as int, p as int) =~= b@.subrange(pos as int, p - 2) + seq![c, d]);
            }
            continue;
        }
        if d == 117 && b.len() - p > 5 && b[p + 2] == 48 && b[p + 3] == 48 && (b[p + 4] == 48 || b[p + 4] == 49) {
            let lo = hex_value(b[p + 5]);
            if let Some(low) = lo {
                let x: u8 = (b[p + 4] - 48) * 16 + low;
                let ghost hi = b@[p + 4];
                out.push(x);
                p += 6;
                proof {
                    assert(x / 16 == hi - 48 && x % 16 == low);
                    assert(escape_byte(x) =~= b@.subrange(p - 6, p as int));
                    assert forall|s: Seq<u8>| #[trigger] escaped_at(b@, pos as int, s) implies out@.len() <= s.len() && s.take(out@.len() as int) == out@ by {
                        let e = escape_byte(s[k]);
                        let w = b@.subrange(p - 6, p - 6 + e.len());
                        assert(w[0] == c);
                        assert(w[1] == d);
                        assert(s[k] < 32);
                        assert(w[4] == hi && w[5] == b@[p - 1]);
                        assert(s[k] == x);
                        assert(s.take(k + 1) =~= s.take(k).push(s[k]));
                    }
                    assert(out@.drop_last() =~= before);
                    assert(b@.subrange(pos as int, p as int) =~= b@.subrange(pos as int, p - 6) + escape_byte(x));
                }
                continue;
            }
        }
        proof {
            assert forall|s: Seq<u8>| #[trigger] escaped_at(b@, pos as int, s) implies false by {
                if k < s.len() {
                    let e = escape_byte(s[k]);
                    let w = b@.subrange(p as int, p + e.len());
                    assert(w[0] == c);
                    assert(w[1] == d);
                    assert(s[k] < 32);
                    assert(w[2] == b@[p + 2] && w[3] == b@[p + 3] && w[4] == b@[p + 4] && w[5] == b@[p + 5]);
                    assert(s[k] as nat / 16 < 2);
                }
            }
        }
        return None;
    }
}

fn push_slice(out: &mut Vec<u8>, bytes: &[u8])
    ensures
        final(out)@ == old(out)@ + bytes@,
{
    let mut i: usize = 0;
    while i < bytes.len()
        invariant
            i <= bytes@.len(),
            out@ == old(out)@ + bytes@.take(i as int),
        decreases bytes@.len() - i,
    {
        out.push(bytes[i]);
        i += 1;
        assert(bytes@.take(i as int) == bytes@.take(i - 1).push(bytes@[i - 1]));
    }
    assert(bytes@.take(i as int) == bytes@);
}
/// `{"sub":"`
pub open spec fn open_sub() -> Seq<u8> {
    seq![123u8, 34u8, 115u8, 117u8, 98u8, 34u8, 58u8, 34u8]
}

/// `","exp":`
pub open spec fn sub_to_exp() -> Seq<u8> {
    seq![34u8, 44u8, 34u8, 101u8, 120u8, 112u8, 34u8, 58u8]
}

/// `,"iat":`
pub open spec fn exp_to_iat() -> Seq<u8> {
    seq![44u8, 34u8, 105u8, 97u8, 116u8, 34u8, 58u8]
}

/// `}`
pub open spec fn close_claims() -> Seq<u8> {
    seq![125u8]
}

/// The JSON text of a claim set: subject, expiry, issue time.
pub open spec fn claims_bytes(sub: Seq<u8>, exp: nat, iat: nat) -> Seq<u8> {
    open_sub() + escape(sub) + sub_to_exp() + dec(exp) + exp_to_iat() + dec(iat) + close_claims()
}

/// Writes the JSON text of a claim set.
pub fn write_claims(sub: &[u8], exp: usize, iat: usize) -> (r: Vec<u8>)
    ensures
        r@ == claims_bytes(sub@, exp as nat, iat as nat),
{
    let mut out: Vec<u8> = Vec::new();
    push_slice(&mut out, &[123u8, 34u8, 115u8, 117u8, 98u8, 34u8, 58u8, 34u8]);
    push_escaped(&mut out, sub);
    push_slice(&mut out, &[34u8, 44u8, 34u8, 101u8, 120u8, 112u8, 34u8, 58u8]);
    push_decimal(&mut out, exp);
    push_slice(&mut out, &[44u8, 34u8, 105u8, 97u8, 116u8, 34u8, 58u8]);
    push_decimal(&mut out, iat);
    push_slice(&mut out, &[125u8]);
    assert(out@ =~= claims_bytes(sub@, exp as nat, iat as nat));
    out
}

fn matches_at(b: &[u8], pos: usize, lit: &[u8]) -> (r: bool)
    requires
        pos <= b@.len(),
    ensures
        r == (pos + lit@.len() <= b@.len() && b@.subrange(pos as int, pos + lit@.len()) == lit@),
{
    let n = b.len();
    if n - pos < lit.len() {
        return false;
    }
    let mut i: usize = 0;
    while i < lit.len()
        invariant
            n == b@.len(),
            i <= lit@.len(),
            pos + lit@.len() <= b@.len(),
            forall|j: int| 0 <= j < i ==> b@[pos + j] == lit@[j],
        decreases lit@.len() - i,
    {
        if b[pos + i] != lit[i] {
            assert(b@.subrange(pos as int, pos + lit@.len())[i as int] != lit@[i as int]);
            return false;
        }
        i += 1;
    }
    assert(b@.subrange(pos as int, pos + lit@.len()) =~= lit@);
    true
}

/// The pieces of the claim text for `sub`, `exp` and `iat` stand in `b`
/// where the readers look for them.
pub open spec fn claims_layout(b: Seq<u8>, sub: Seq<u8>, exp: nat, iat: nat) -> bool {
        ({
            let p: int = 8 + escape(sub).len() as int;
            let q: int = p + 8 + dec(exp).len();
            let r: int = q + 7 + dec(iat).len();
            &&& b.subrange(0, 8) == open_sub()
            &&& escaped_at(b, 8, sub)
            &&& b.subrange(p as int, p + 8) == sub_to_exp()
            &&& dec_at(b, p + 8, exp)
            &&& b.subrange(q as int, q + 7) == exp_to_iat()
            &&& dec_at(b, q + 7, iat)
            &&& b.subrange(r as int, r + 1) == close_claims()
            &&& b.len() == r + 1
        })
}

/// Where `b` is the text of a claim set, the pieces stand where the readers
/// look for them.
proof fn lemma_claims_layout(b: Seq<u8>, sub: Seq<u8>, exp: nat, iat: nat)
    requires
        b == claims_bytes(sub, exp, iat),
    ensures
        claims_layout(b, sub, exp, iat),
{
    let e = escape(sub);
    let p: int = 8 + e.len() as int;
    let q: int = p + 8 + dec(exp).len();
    let r: int = q + 7 + dec(iat).len();
    assert(b.subrange(0, 8) =~= open_sub());
    assert(b.subrange(8, p as int) =~= e);
    assert(b.subrange(p as int, p + 8) =~= sub_to_exp());
    assert(b[p as int] == QUOTE);
    assert(b.subrange(p + 8, q as int) =~= dec(exp));
    assert(b[q as int] == 44);
    assert(b.subrange(q as int, q + 7) =~= exp_to_iat());
    assert(b.subrange(q + 7, r as int) =~= dec(iat));
    assert(b[r as int] == 125);
    assert(b.subrange(r as int, r + 1) =~= close_claims());
}

/// Every claim set whose text `b` is lays its pieces out in `b`.
proof fn lemma_claims_layouts(b: Seq<u8>)
    ensures
        forall|s: Seq<u8>, e: usize, i: usize|
            b == #[trigger] claims_bytes(s, e as nat, i as nat) ==> claims_layout(b, s, e as nat, i as nat),
{
    assert forall|s: Seq<u8>, e: usize, i: usize| b == #[trigger] claims_bytes(s, e as nat, i as nat) implies claims_layout(
        b,
        s,
        e as nat,
        i as nat,
    ) by {
        lemma_claims_layout(b, s, e as nat, i as nat);
    }
}

/// Reads back the text that `write_claims` writes: the subject's bytes,
/// the expiry and the issue time. Any other text gives `None`.
pub fn parse_claims(b: &[u8]) -> (r: Option<(Vec<u8>, usize, usize)>)
    ensures
        r matches Some((s, e, i)) ==> b@ == claims_bytes(s@, e as nat, i as nat),
        forall|s: Seq<u8>, e: usize, i: usize| b@ == #[trigger] claims_bytes(s, e as nat, i as nat) ==> (r matches Some((s2, e2, i2)) && s2@ == s && e2 == e && i2 == i),
{
    let n = b.len();
    proof {
        lemma_claims_layouts(b@);
    }
    if !matches_at(b, 0, &[123u8, 34u8, 115u8, 117u8, 98u8, 34u8, 58u8, 34u8]) {
        return None;
    }
    let (sub, p) = match read_escaped(b, 8) {
        Some(found) => found,
        None => {
            return None;
        },
    };
    let ok2 = matches_at(b, p, &[34u8, 44u8, 34u8, 101u8, 120u8, 112u8, 34u8, 58u8]);
    if !ok2 {
        return None;
    }
    let (exp, q) = match read_decimal(b, p + 8) {
        Some(found) => found,
        None => {
            return None;
        },
    };
    let ok3 = matches_at(b, q, &[44u8, 34u8, 105u8, 97u8, 116u8, 34u8, 58u8]);
    if !ok3 {
        return None;
    }
    let (iat, r) = match read_decimal(b, q + 7) {
        Some(found) => found,
        None => {
            return None;
        },
    };
    if r >= n || r + 1 != n || b[r] != 125 {
        proof {
            assert forall|s: Seq<u8>, e: usize, i: usize| b@ == #[trigger] claims_bytes(s, e as nat, i as nat) implies false by {
                assert(b@.subrange(r as int, r + 1)[0] == b@[r as int]);
            }
        }
        return None;
    }
    proof {
        assert(b@ =~= claims_bytes(sub@, exp as nat, iat as nat));
    }
    Some((sub, exp, iat))
}

/// Relies on std's `String::from_utf8`: it accepts exactly valid UTF-8 and
/// keeps the characters that the bytes encode.
#[verifier::external_body]
pub(crate) fn utf8_to_string(b: Vec<u8>) -> (r: Option<String>)
    ensures
        r matches Some(s) ==> s@ == decode_utf8(b@),
        valid_utf8(b@) <==> r is Some,
{
    String::from_utf8(b).ok()
}

/// The decimal digits of `n` as characters.
pub open spec fn digit_chars(n: nat) -> Seq<char> {
    dec(n).map_values(|b: u8| b as char)
}

proof fn lemma_dec_utf8(n: nat)
    ensures
        encode_utf8(digit_chars(n)) == dec(n),
{
    lemma_dec(n);
    let c = digit_chars(n);
    assert forall|i: int| 0 <= i < c.len() implies '\0' <= #[trigger] c[i] <= '\u{7f}' by {
        assert(is_digit(dec(n)[i]));
    }
    assert(is_ascii_chars(c));
    is_ascii_chars_encode_utf8(c);
    assert forall|i: int| 0 <= i < c.len() implies encode_utf8(c)[i] == dec(n)[i] by {
        assert(is_digit(dec(n)[i]));
        assert(c[i] as u8 == encode_utf8(c)[i]);
    }
    assert(encode_utf8(c) =~= dec(n));
}

/// `n` written in decimal, as text.
pub fn decimal_text(n: usize) -> (r: String)
    ensures
        r@ == digit_chars(n as nat),
{
    let mut digits: Vec<u8> = Vec::new();
    push_decimal(&mut digits, n);
    proof {
        assert(digits@ =~= dec(n as nat));
        lemma_dec_utf8(n as nat);
        encode_utf8_valid_utf8(digit_chars(n as nat));
        encode_utf8_decode_utf8(digit_chars(n as nat));
    }
    match utf8_to_string(digits) {
        Some(text) => text,
        None => String::new(),
    }
}

} // verus!
