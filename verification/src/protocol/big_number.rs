//! What a big number's chunks stand for: base 10^9 digits, least
//! significant first, each below 10^9.
use vstd::prelude::*;
use crate::protocol::data_type::{
    Resp, encoding, line, crlf, pad9, big_digits, strip_zeros, big_text, digit_bytes,
    lemma_big_text_digits,
};
use crate::protocol::decode::{DecodeError, big_chunks, decode};
use crate::protocol::roundtrip::{lemma_header, lemma_big_digits_front, lemma_pad9_digits};
use crate::text::{
    NumberError, is_digit, scan_digits, parse_u32_spec, pow10, decimal, lemma_ascii_valid,
};

verus! {

/// The value of a text of decimal digits.
pub open spec fn digits_value(d: Seq<u8>) -> nat
    decreases d.len(),
{
    if d.len() == 0 {
        0
    } else {
        digits_value(d.drop_last()) * 10 + (d.last() - 48) as nat
    }
}

/// Whether every byte of `d` is a decimal digit.
pub open spec fn all_digits(d: Seq<u8>) -> bool {
    forall|i: int| 0 <= i < d.len() ==> is_digit(#[trigger] d[i])
}

/// The number that chunks stand for: `c[0] + c[1] * 10^9 + c[2] * 10^18 + ...`.
pub open spec fn big_value(c: Seq<u32>) -> nat
    decreases c.len(),
{
    if c.len() == 0 {
        0
    } else {
        c[0] as nat + 1_000_000_000 * big_value(c.drop_first())
    }
}

proof fn lemma_pow10_le(k: nat, m: nat)
    requires
        k <= m,
    ensures
        pow10(k) <= pow10(m),
    decreases m,
{
    if k < m {
        lemma_pow10_le(k, (m - 1) as nat);
    }
}

proof fn lemma_scan_value(d: Seq<u8>, n: int, limit: int, ov: NumberError)
    requires
        0 <= n <= d.len(),
    ensures
        scan_digits(d, n, limit, ov) matches Ok(v) ==> {
            &&& v == digits_value(d.subrange(0, n))
            &&& v < pow10(n as nat)
            &&& forall|k: int| 0 <= k < n ==> is_digit(#[trigger] d[k])
        },
    decreases n,
{
    if n > 0 {
        lemma_scan_value(d, n - 1, limit, ov);
        let s = d.subrange(0, n);
        assert(s.drop_last() =~= d.subrange(0, n - 1));
        if let Ok(v) = scan_digits(d, n, limit, ov) {
            let acc = digits_value(d.subrange(0, n - 1));
            assert(pow10(n as nat) == 10 * pow10((n - 1) as nat));
            assert(v == acc * 10 + (d[n - 1] - 48));
            assert(s.last() == d[n - 1]);
        }
    } else {
        assert(d.subrange(0, 0) =~= Seq::<u8>::empty());
    }
}

proof fn lemma_chunk(s: Seq<u8>)
    requires
        s.len() <= 9,
    ensures
        parse_u32_spec(s) matches Ok(v) ==> 0 <= v < 1_000_000_000 && (all_digits(s) ==> v
            == digits_value(s)),
{
    assert(pow10(9) == 1_000_000_000) by {
        reveal_with_fuel(pow10, 10);
    }
    if s.len() > 0 {
        lemma_scan_value(s.drop_first(), s.len() - 1, u32::MAX as int, NumberError::PosOverflow);
        lemma_scan_value(s, s.len() as int, u32::MAX as int, NumberError::PosOverflow);
        lemma_pow10_le((s.len() - 1) as nat, 9);
        lemma_pow10_le(s.len() as nat, 9);
        assert(s.subrange(0, s.len() as int) =~= s);
        if all_digits(s) {
            assert(is_digit(s[0]));
        }
    }
}

proof fn lemma_digits_concat(a: Seq<u8>, b: Seq<u8>)
    ensures
        digits_value(a + b) == digits_value(a) * pow10(b.len()) + digits_value(b),
    decreases b.len(),
{
    if b.len() == 0 {
        assert(a + b =~= a);
        assert(pow10(0) == 1);
        assert(digits_value(b) == 0);
        assert(digits_value(a) * 1 == digits_value(a));
    } else {
        let bl = b.drop_last();
        lemma_digits_concat(a, bl);
        assert((a + b).drop_last() =~= a + bl);
        assert((a + b).last() == b.last());
        let x = digits_value(a);
        let p = pow10(bl.len());
        let y = digits_value(bl);
        let d = (b.last() - 48) as nat;
        assert(digits_value(a + bl) == x * p + y);
        assert(digits_value(a + b) == digits_value(a + bl) * 10 + d);
        assert(digits_value(b) == y * 10 + d);
        assert(pow10(b.len()) == 10 * p);
        assert((x * p + y) * 10 + d == x * (10 * p) + (y * 10 + d)) by (nonlinear_arith);
    }
}

proof fn lemma_scan_all_digits(d: Seq<u8>, n: int, limit: int, ov: NumberError)
    requires
        0 <= n <= d.len(),
        forall|k: int| 0 <= k < n ==> is_digit(#[trigger] d[k]),
        pow10(n as nat) <= limit + 1,
    ensures
        scan_digits(d, n, limit, ov) == Ok::<int, NumberError>(digits_value(d.subrange(0, n)) as int),
    decreases n,
{
    if n > 0 {
        assert(pow10(n as nat) == 10 * pow10((n - 1) as nat));
        lemma_scan_all_digits(d, n - 1, limit, ov);
        lemma_scan_value(d, n - 1, limit, ov);
        lemma_scan_value(d, n, limit, ov);
    } else {
        assert(d.subrange(0, 0) =~= Seq::<u8>::empty());
    }
}

/// A run of one to nine digits reads as a chunk.
proof fn lemma_chunk_reads(s: Seq<u8>)
    requires
        1 <= s.len() <= 9,
        all_digits(s),
    ensures
        parse_u32_spec(s) == Ok::<int, NumberError>(digits_value(s) as int),
{
    assert(pow10(9) == 1_000_000_000) by {
        reveal_with_fuel(pow10, 10);
    }
    lemma_pow10_le(s.len() as nat, 9);
    assert(is_digit(s[0]));
    lemma_scan_all_digits(s, s.len() as int, u32::MAX as int, NumberError::PosOverflow);
    assert(s.subrange(0, s.len() as int) =~= s);
}

/// Reading a big number's digits gives chunks below 10^9. A text of digits
/// always reads, as `(length + 8) / 9` chunks that stand for its value.
pub proof fn law_big_chunks(num: Seq<u8>)
    ensures
        big_chunks(num) matches Ok(c) ==> {
            &&& forall|i: int| 0 <= i < c.len() ==> #[trigger] c[i] < 1_000_000_000
            &&& all_digits(num) ==> big_value(c) == digits_value(num)
        },
        all_digits(num) ==> big_chunks(num) is Ok && big_chunks(num)->Ok_0.len() == (num.len()
            + 8) / 9,
    decreases num.len(),
{
    if num.len() > 0 {
        let i = if num.len() < 9 {
            0
        } else {
            num.len() - 9
        };
        let hi = num.subrange(0, i);
        let lo = num.subrange(i, num.len() as int);
        law_big_chunks(hi);
        lemma_chunk(lo);
        if all_digits(num) {
            assert(all_digits(hi)) by {
                assert forall|j: int| 0 <= j < hi.len() implies is_digit(#[trigger] hi[j]) by {
                    assert(hi[j] == num[j]);
                }
            }
            assert(all_digits(lo)) by {
                assert forall|j: int| 0 <= j < lo.len() implies is_digit(#[trigger] lo[j]) by {
                    assert(lo[j] == num[i + j]);
                }
            }
            lemma_chunk_reads(lo);
            assert(is_digit(num[i]));
            assert(!crate::protocol::decode::cuts_character(num, i));
            if i == 0 {
                assert(hi =~= Seq::<u8>::empty());
            }
        }
        if let Ok(c) = big_chunks(num) {
            let n = parse_u32_spec(lo)->Ok_0;
            let rest = big_chunks(hi)->Ok_0;
            assert(c == seq![n as u32] + rest);
            assert(c.drop_first() =~= rest);
            assert forall|j: int| 0 <= j < c.len() implies #[trigger] c[j] < 1_000_000_000 by {
                if j == 0 {
                    assert(c[0] == n as u32);
                } else {
                    assert(c[j] == rest[j - 1]);
                }
            }
            if all_digits(num) {
                assert(all_digits(hi)) by {
                    assert forall|j: int| 0 <= j < hi.len() implies is_digit(#[trigger] hi[j]) by {
                        assert(hi[j] == num[j]);
                    }
                }
                assert(all_digits(lo)) by {
                    assert forall|j: int| 0 <= j < lo.len() implies is_digit(#[trigger] lo[j]) by {
                        assert(lo[j] == num[i + j]);
                    }
                }
                lemma_digits_concat(hi, lo);
                assert(hi + lo =~= num);
                if i == 0 {
                    assert(hi =~= Seq::<u8>::empty());
                    assert(big_chunks(hi) == Ok::<Seq<u32>, DecodeError>(Seq::<u32>::empty()));
                    assert(rest.len() == 0);
                    assert(digits_value(hi) == 0);
                } else {
                    assert(lo.len() == 9);
                    assert(pow10(9) == 1_000_000_000) by {
                        reveal_with_fuel(pow10, 10);
                    }
                }
            }
        }
    }
}

/// A big number written as `(`, an optional `-`, digits and a line end
/// reads as a big number with that sign, `(digits + 8) / 9` chunks below
/// 10^9 that stand for the digits' value, taking exactly those bytes.
pub proof fn law_decode_big_number(positive: bool, d: Seq<u8>, rest: Seq<u8>, buf: Seq<u8>) -> (c:
    Seq<u32>)
    requires
        d.len() > 0,
        all_digits(d),
        buf == seq![40u8] + (if positive {
            seq![]
        } else {
            seq![45u8]
        }) + d + crlf() + rest,
    ensures
        decode(buf) == Ok::<(Resp, int), DecodeError>(
            (Resp::BigNumber(positive, c), (if positive { 0int } else { 1int }) + d.len() + 3),
        ),
        c.len() == (d.len() + 8) / 9,
        forall|i: int| 0 <= i < c.len() ==> #[trigger] c[i] < 1_000_000_000,
        big_value(c) == digits_value(d),
{
    let sign: Seq<u8> = if positive {
        seq![]
    } else {
        seq![45u8]
    };
    let c = sign + d;
    assert forall|i: int| 0 <= i < c.len() implies #[trigger] c[i] < 128 && c[i] != 10 by {
        if i >= sign.len() {
            assert(c[i] == d[i - sign.len()]);
            assert(is_digit(d[i - sign.len()]));
        }
    }
    lemma_ascii_valid(c);
    assert(!c.contains(10)) by {
        if c.contains(10) {
            let j = choose|j: int| 0 <= j < c.len() && c[j] == 10;
            assert(c[j] != 10);
        }
    }
    lemma_header(40, c, rest);
    assert(buf =~= seq![40u8] + c + crlf() + rest);
    law_big_chunks(d);
    if positive {
        assert(c =~= d);
        assert(is_digit(d[0]));
    } else {
        assert(c.drop_first() =~= d);
        assert(c[0] == 45);
    }
    big_chunks(d)->Ok_0
}

proof fn lemma_value_of_decimal(n: nat)
    ensures
        digits_value(decimal(n)) == n,
    decreases n,
{
    let d = decimal(n);
    if n >= 10 {
        lemma_value_of_decimal(n / 10);
        assert(d.drop_last() =~= decimal(n / 10));
        assert(d.last() == (48 + n % 10) as u8);
        assert((d.last() - 48) as nat == n % 10);
        assert(digits_value(d) == digits_value(decimal(n / 10)) * 10 + n % 10);
        assert(n == (n / 10) * 10 + n % 10) by (nonlinear_arith);
    } else {
        assert(d.drop_last() =~= Seq::<u8>::empty());
        assert(d.last() == (48 + n) as u8);
        assert(digits_value(d) == digits_value(Seq::<u8>::empty()) * 10 + n);
    }
}

proof fn lemma_value_of_zeros(k: nat)
    ensures
        digits_value(Seq::new(k, |i: int| 48u8)) == 0,
    decreases k,
{
    let z = Seq::new(k, |i: int| 48u8);
    if k > 0 {
        assert(z.drop_last() =~= Seq::new((k - 1) as nat, |i: int| 48u8));
        lemma_value_of_zeros((k - 1) as nat);
        assert(z.last() == 48);
        assert(digits_value(z) == digits_value(z.drop_last()) * 10 + 0);
    }
}

proof fn lemma_value_of_chunk(x: u32)
    ensures
        digits_value(pad9(decimal(x as nat))) == x,
{
    let d = decimal(x as nat);
    lemma_value_of_decimal(x as nat);
    if d.len() < 9 {
        let z = Seq::new((9 - d.len()) as nat, |i: int| 48u8);
        lemma_value_of_zeros((9 - d.len()) as nat);
        lemma_digits_concat(z, d);
        assert(pad9(d) == z + d);
        assert(digits_value(z) * pow10(d.len()) == 0) by (nonlinear_arith)
            requires
                digits_value(z) == 0,
        ;
    }
}

proof fn lemma_value_of_big_digits(c: Seq<u32>)
    requires
        forall|i: int| 0 <= i < c.len() ==> #[trigger] c[i] < 1_000_000_000,
    ensures
        digits_value(big_digits(c)) == big_value(c),
    decreases c.len(),
{
    if c.len() == 0 {
        assert(big_digits(c) =~= Seq::<u8>::empty());
    } else {
        let t = c.drop_first();
        assert forall|i: int| 0 <= i < t.len() implies #[trigger] t[i] < 1_000_000_000 by {
            assert(t[i] == c[i + 1]);
        }
        lemma_value_of_big_digits(t);
        lemma_big_digits_front(c);
        lemma_pad9_digits(c[0]);
        lemma_value_of_chunk(c[0]);
        let p = pad9(decimal(c[0] as nat));
        lemma_digits_concat(big_digits(t), p);
        assert(pow10(9) == 1_000_000_000) by {
            reveal_with_fuel(pow10, 10);
        }
        assert(p.len() == 9);
        assert(digits_value(big_digits(c)) == big_value(t) * 1_000_000_000 + c[0]);
        assert(big_value(c) == c[0] as nat + 1_000_000_000 * big_value(t));
    }
}

proof fn lemma_value_of_stripped(s: Seq<u8>)
    ensures
        digits_value(strip_zeros(s)) == digits_value(s),
        strip_zeros(s).len() > 0 ==> strip_zeros(s)[0] != 48,
    decreases s.len(),
{
    if s.len() > 0 && s[0] == 48 {
        let t = s.drop_first();
        lemma_value_of_stripped(t);
        let z = seq![48u8];
        lemma_digits_concat(z, t);
        assert(z + t =~= s);
        assert(z.drop_last() =~= Seq::<u8>::empty());
        assert(digits_value(z) == digits_value(Seq::<u8>::empty()) * 10 + 0);
        assert(digits_value(z) * pow10(t.len()) == 0) by (nonlinear_arith)
            requires
                digits_value(z) == 0,
        ;
        assert(strip_zeros(s) == strip_zeros(t));
    }
}

proof fn lemma_decimal_of_digits(s: Seq<u8>)
    requires
        s.len() > 0,
        s[0] != 48,
        digit_bytes(s),
    ensures
        decimal(digits_value(s)) == s,
        digits_value(s) >= 1,
    decreases s.len(),
{
    let t = s.drop_last();
    if s.len() == 1 {
        assert(t =~= Seq::<u8>::empty());
        assert(decimal(digits_value(s)) =~= s);
    } else {
        assert(digit_bytes(t)) by {
            assert forall|i: int| 0 <= i < t.len() implies 48 <= #[trigger] t[i] <= 57 by {
                assert(t[i] == s[i]);
            }
        }
        lemma_decimal_of_digits(t);
        let v = digits_value(t);
        let dgt = (s.last() - 48) as nat;
        let n = v * 10 + dgt;
        assert(s.last() == s[s.len() - 1]);
        assert(n / 10 == v && n % 10 == dgt) by (nonlinear_arith)
            requires
                n == v * 10 + dgt,
                dgt < 10,
        ;
        assert(decimal(n) == decimal(n / 10).push((48 + n % 10) as u8));
        assert(t.push(s.last()) =~= s);
    }
}

/// `serialize` writes a big number whose chunks are below 10^9 as the
/// decimal text of its value `c[0] + c[1] * 10^9 + ...`, with its sign.
pub proof fn law_big_text_value(positive: bool, c: Seq<u32>)
    requires
        forall|i: int| 0 <= i < c.len() ==> #[trigger] c[i] < 1_000_000_000,
    ensures
        big_text(c) == decimal(big_value(c)),
        encoding(Resp::BigNumber(positive, c)) == line(
            40,
            (if positive {
                seq![]
            } else {
                seq![45u8]
            }) + decimal(big_value(c)),
        ),
{
    let s = strip_zeros(big_digits(c));
    lemma_value_of_big_digits(c);
    lemma_value_of_stripped(big_digits(c));
    lemma_big_text_digits(c);
    if s.len() == 0 {
        assert(s =~= Seq::<u8>::empty());
        assert(decimal(0) =~= seq![48u8]);
    } else {
        lemma_decimal_of_digits(s);
    }
}

} // verus!
