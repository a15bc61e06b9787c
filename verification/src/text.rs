//! Decimal numbers and UTF-8 text as they appear on the wire.
//!
//! Numbers are read with the rules of Rust's integer `FromStr`: an optional
//! `+` (or `-` for signed types), then one or more ASCII digits, scanned from
//! the left; the first position that holds a non-digit, or at which the value
//! leaves the type's range, decides the error.
use vstd::prelude::*;
use vstd::utf8::{decode_utf8, encode_utf8, valid_utf8};

verus! {

broadcast use vstd::utf8::encode_utf8_decode_utf8, vstd::utf8::decode_utf8_encode_utf8;

/// Why a decimal number could not be read.
#[derive(Clone, Copy, Debug, PartialEq, Eq, Structural)]
pub enum NumberError {
    Empty,
    InvalidDigit,
    PosOverflow,
    NegOverflow,
}

/// The text a client sees for a number that could not be read.
pub open spec fn number_error_text(e: NumberError) -> Seq<char> {
    match e {
        NumberError::Empty => "cannot parse integer from empty string"@,
        NumberError::InvalidDigit => "invalid digit found in string"@,
        NumberError::PosOverflow => "number too large to fit in target type"@,
        NumberError::NegOverflow => "number too small to fit in target type"@,
    }
}

impl NumberError {
    pub fn message(&self) -> (r: String)
        ensures
            r@ == number_error_text(*self),
    {
        match self {
            NumberError::Empty => "cannot parse integer from empty string".to_owned(),
            NumberError::InvalidDigit => "invalid digit found in string".to_owned(),
            NumberError::PosOverflow => "number too large to fit in target type".to_owned(),
            NumberError::NegOverflow => "number too small to fit in target type".to_owned(),
        }
    }
}

pub open spec fn is_digit(b: u8) -> bool {
    48 <= b <= 57
}

/// Reads the first `n` bytes of `d` as decimal digits, left to right, with the
/// value bounded by `limit`; `ov` is the error for a value above the bound.
pub open spec fn scan_digits(d: Seq<u8>, n: int, limit: int, ov: NumberError) -> Result<
    int,
    NumberError,
>
    decreases n,
{
    if n <= 0 {
        Ok(0)
    } else {
        match scan_digits(d, n - 1, limit, ov) {
            Err(e) => Err(e),
            Ok(acc) => if !is_digit(d[n - 1]) {
                Err(NumberError::InvalidDigit)
            } else if acc * 10 + (d[n - 1] - 48) > limit {
                Err(ov)
            } else {
                Ok(acc * 10 + (d[n - 1] - 48))
            },
        }
    }
}

/// The value of the decimal text `s`, for a type whose values lie in
/// `[-neg_limit, pos_limit]` (`signed` says whether a leading `-` is allowed).
pub open spec fn parse_number(s: Seq<u8>, signed: bool, pos_limit: int, neg_limit: int) -> Result<
    int,
    NumberError,
> {
    if s.len() == 0 {
        Err(NumberError::Empty)
    } else if (s[0] == 43 || s[0] == 45) && s.len() == 1 {
        Err(NumberError::InvalidDigit)
    } else if s[0] == 43 {
        scan_digits(s.drop_first(), s.len() - 1, pos_limit, NumberError::PosOverflow)
    } else if s[0] == 45 && signed {
        match scan_digits(s.drop_first(), s.len() - 1, neg_limit, NumberError::NegOverflow) {
            Ok(v) => Ok(-v),
            Err(e) => Err(e),
        }
    } else {
        scan_digits(s, s.len() as int, pos_limit, NumberError::PosOverflow)
    }
}

pub open spec fn parse_i64_spec(s: Seq<u8>) -> Result<int, NumberError> {
    parse_number(s, true, i64::MAX as int, 0x8000_0000_0000_0000)
}

pub open spec fn parse_u64_spec(s: Seq<u8>) -> Result<int, NumberError> {
    parse_number(s, false, u64::MAX as int, 0)
}

pub open spec fn parse_u32_spec(s: Seq<u8>) -> Result<int, NumberError> {
    parse_number(s, false, u32::MAX as int, 0)
}

pub open spec fn parse_usize_spec(s: Seq<u8>) -> Result<int, NumberError> {
    parse_number(s, false, usize::MAX as int, 0)
}

pub open spec fn parse_u128_spec(s: Seq<u8>) -> Result<int, NumberError> {
    parse_number(s, false, u128::MAX as int, 0)
}

proof fn lemma_scan_bounds(d: Seq<u8>, n: int, limit: int, ov: NumberError)
    requires
        0 <= limit,
    ensures
        scan_digits(d, n, limit, ov) matches Ok(v) ==> 0 <= v <= limit,
    decreases n,
{
    if n > 0 {
        lemma_scan_bounds(d, n - 1, limit, ov);
    }
}

proof fn lemma_scan_error_sticks(d: Seq<u8>, i: int, n: int, limit: int, ov: NumberError)
    requires
        0 <= i <= n,
        scan_digits(d, i, limit, ov) is Err,
    ensures
        scan_digits(d, n, limit, ov) == scan_digits(d, i, limit, ov),
    decreases n - i,
{
    if i < n {
        lemma_scan_error_sticks(d, i, n - 1, limit, ov);
    }
}

pub proof fn lemma_scan_prefix(d: Seq<u8>, e: Seq<u8>, n: int, limit: int, ov: NumberError)
    requires
        0 <= n <= d.len(),
        n <= e.len(),
        forall|k: int| 0 <= k < n ==> d[k] == e[k],
    ensures
        scan_digits(d, n, limit, ov) == scan_digits(e, n, limit, ov),
    decreases n,
{
    if n > 0 {
        lemma_scan_prefix(d, e, n - 1, limit, ov);
    }
}

/// Scans `d[start..]` as digits, bounded by `limit`.
fn scan_magnitude(d: &[u8], start: usize, limit: u128, ov: NumberError) -> (r: Result<
    u128,
    NumberError,
>)
    requires
        start <= d@.len(),
    ensures
        match scan_digits(
            d@.subrange(start as int, d@.len() as int),
            d@.len() - start,
            limit as int,
            ov,
        ) {
            Ok(v) => 0 <= v <= limit && r == Ok::<u128, NumberError>(v as u128),
            Err(e) => r == Err::<u128, NumberError>(e),
        },
{
    let ghost s = d@.subrange(start as int, d@.len() as int);
    proof {
        lemma_scan_bounds(s, d@.len() - start, limit as int, ov);
    }
    let mut acc: u128 = 0;
    let mut i: usize = start;
    while i < d.len()
        invariant
            start <= i <= d@.len(),
            s == d@.subrange(start as int, d@.len() as int),
            scan_digits(s, i - start, limit as int, ov) == Ok::<int, NumberError>(acc as int),
        decreases d@.len() - i,
    {
        let b = d[i];
        proof {
            assert(s[i - start] == b);
        }
        if b < 48 || b > 57 {
            proof {
                lemma_scan_error_sticks(s, i - start + 1, d@.len() - start, limit as int, ov);
            }
            return Err(NumberError::InvalidDigit);
        }
        let digit: u128 = (b - 48) as u128;
        if digit > limit || acc > (limit - digit) / 10 {
            proof {
                assert(acc * 10 + digit > limit) by (nonlinear_arith)
                    requires
                        digit > limit || acc > (limit - digit) / 10,
                        0 <= digit <= 9,
                        0 <= acc,
                ;
                lemma_scan_error_sticks(s, i - start + 1, d@.len() - start, limit as int, ov);
            }
            return Err(ov);
        }
        proof {
            assert(acc * 10 + digit <= limit) by (nonlinear_arith)
                requires
                    acc <= (limit - digit) / 10,
                    digit <= limit,
            ;
        }
        acc = acc * 10 + digit;
        i = i + 1;
    }
    r_ok(acc)
}

#[inline(always)]
fn r_ok(v: u128) -> (r: Result<u128, NumberError>)
    ensures
        r == Ok::<u128, NumberError>(v),
{
    Ok(v)
}

/// Reads decimal text into a magnitude and a sign, with the bounds of the
/// target type.
fn parse_signed_magnitude(s: &[u8], signed: bool, pos_limit: u128, neg_limit: u128) -> (r: Result<
    (bool, u128),
    NumberError,
>)
    ensures
        match parse_number(s@, signed, pos_limit as int, neg_limit as int) {
            Ok(v) => r matches Ok((neg, m)) && (if neg {
                v == -(m as int)
            } else {
                v == m as int
            }),
            Err(e) => r == Err::<(bool, u128), NumberError>(e),
        },
{
    if s.len() == 0 {
        return Err(NumberError::Empty);
    }
    if (s[0] == 43 || s[0] == 45) && s.len() == 1 {
        return Err(NumberError::InvalidDigit);
    }
    if s[0] == 43 {
        proof {
            assert(s@.drop_first() =~= s@.subrange(1, s@.len() as int));
        }
        match scan_magnitude(s, 1, pos_limit, NumberError::PosOverflow) {
            Ok(m) => Ok((false, m)),
            Err(e) => Err(e),
        }
    } else if s[0] == 45 && signed {
        proof {
            assert(s@.drop_first() =~= s@.subrange(1, s@.len() as int));
        }
        match scan_magnitude(s, 1, neg_limit, NumberError::NegOverflow) {
            Ok(m) => Ok((true, m)),
            Err(e) => Err(e),
        }
    } else {
        proof {
            assert(s@ =~= s@.subrange(0, s@.len() as int));
        }
        match scan_magnitude(s, 0, pos_limit, NumberError::PosOverflow) {
            Ok(m) => Ok((false, m)),
            Err(e) => Err(e),
        }
    }
}

pub proof fn lemma_parse_bounds(s: Seq<u8>, signed: bool, pos_limit: int, neg_limit: int)
    requires
        0 <= pos_limit,
        0 <= neg_limit,
    ensures
        parse_number(s, signed, pos_limit, neg_limit) matches Ok(v) ==> -neg_limit <= v
            <= pos_limit,
        !signed ==> (parse_number(s, signed, pos_limit, neg_limit) matches Ok(v) ==> 0 <= v),
{
    if s.len() > 0 {
        lemma_scan_bounds(s.drop_first(), s.len() - 1, pos_limit, NumberError::PosOverflow);
        lemma_scan_bounds(s.drop_first(), s.len() - 1, neg_limit, NumberError::NegOverflow);
        lemma_scan_bounds(s, s.len() as int, pos_limit, NumberError::PosOverflow);
    }
}

/// Reads an `i64` as `str::parse::<i64>` does.
pub fn parse_i64(s: &[u8]) -> (r: Result<i64, NumberError>)
    ensures
        match parse_i64_spec(s@) {
            Ok(v) => r == Ok::<i64, NumberError>(v as i64),
            Err(e) => r == Err::<i64, NumberError>(e),
        },
{
    proof {
        lemma_parse_bounds(s@, true, i64::MAX as int, 0x8000_0000_0000_0000);
    }
    match parse_signed_magnitude(s, true, 0x7fff_ffff_ffff_ffff, 0x8000_0000_0000_0000) {
        Ok((neg, m)) => {
            if neg {
                Ok((0 - (m as i128)) as i64)
            } else {
                Ok(m as i64)
            }
        },
        Err(e) => Err(e),
    }
}

/// Reads a `u64` as `str::parse::<u64>` does.
pub fn parse_u64(s: &[u8]) -> (r: Result<u64, NumberError>)
    ensures
        match parse_u64_spec(s@) {
            Ok(v) => r == Ok::<u64, NumberError>(v as u64),
            Err(e) => r == Err::<u64, NumberError>(e),
        },
{
    proof {
        lemma_parse_bounds(s@, false, u64::MAX as int, 0);
    }
    match parse_signed_magnitude(s, false, 0xffff_ffff_ffff_ffff, 0) {
        Ok((_, m)) => Ok(m as u64),
        Err(e) => Err(e),
    }
}

/// Reads a `u32` as `str::parse::<u32>` does.
pub fn parse_u32(s: &[u8]) -> (r: Result<u32, NumberError>)
    ensures
        match parse_u32_spec(s@) {
            Ok(v) => r == Ok::<u32, NumberError>(v as u32),
            Err(e) => r == Err::<u32, NumberError>(e),
        },
{
    proof {
        lemma_parse_bounds(s@, false, u32::MAX as int, 0);
    }
    match parse_signed_magnitude(s, false, 0xffff_ffff, 0) {
        Ok((_, m)) => Ok(m as u32),
        Err(e) => Err(e),
    }
}

/// Reads a `usize` as `str::parse::<usize>` does.
pub fn parse_usize(s: &[u8]) -> (r: Result<usize, NumberError>)
    ensures
        match parse_usize_spec(s@) {
            Ok(v) => r == Ok::<usize, NumberError>(v as usize),
            Err(e) => r == Err::<usize, NumberError>(e),
        },
{
    proof {
        lemma_parse_bounds(s@, false, usize::MAX as int, 0);
    }
    let limit: u128 = usize::MAX as u128;
    match parse_signed_magnitude(s, false, limit, 0) {
        Ok((_, m)) => Ok(m as usize),
        Err(e) => Err(e),
    }
}

/// Reads a `u128` as `str::parse::<u128>` does.
pub fn parse_u128(s: &[u8]) -> (r: Result<u128, NumberError>)
    ensures
        match parse_u128_spec(s@) {
            Ok(v) => r == Ok::<u128, NumberError>(v as u128),
            Err(e) => r == Err::<u128, NumberError>(e),
        },
{
    proof {
        lemma_parse_bounds(s@, false, u128::MAX as int, 0);
    }
    match parse_signed_magnitude(s, false, u128::MAX, 0) {
        Ok((_, m)) => Ok(m),
        Err(e) => Err(e),
    }
}

/// The decimal digits of `n`, most significant first, without leading zeros.
pub open spec fn decimal(n: nat) -> Seq<u8>
    decreases n,
{
    if n < 10 {
        seq![(48 + n) as u8]
    } else {
        decimal(n / 10).push((48 + n % 10) as u8)
    }
}

/// The decimal text of an integer, with a leading `-` when it is negative.
pub open spec fn decimal_int(i: int) -> Seq<u8> {
    if i < 0 {
        seq![45u8] + decimal((-i) as nat)
    } else {
        decimal(i as nat)
    }
}

/// Writes `n` in decimal.
pub fn fmt_u128(n: u128) -> (r: Vec<u8>)
    ensures
        r@ == decimal(n as nat),
    decreases n,
{
    if n < 10 {
        let mut v: Vec<u8> = Vec::new();
        v.push((48 + n) as u8);
        proof {
            assert(v@ =~= decimal(n as nat));
        }
        v
    } else {
        let mut v = fmt_u128(n / 10);
        v.push((48 + n % 10) as u8);
        v
    }
}

/// Writes `n` in decimal, with a `-` in front of a negative value.
pub fn fmt_i64(n: i64) -> (r: Vec<u8>)
    ensures
        r@ == decimal_int(n as int),
{
    if n < 0 {
        let m: u128 = (0 - (n as i128)) as u128;
        let mut v: Vec<u8> = Vec::new();
        v.push(45u8);
        let mut d = fmt_u128(m);
        v.append(&mut d);
        proof {
            assert(v@ =~= decimal_int(n as int));
        }
        v
    } else {
        fmt_u128(n as u128)
    }
}

/// `String::from_utf8`: std documents that it succeeds exactly when the bytes
/// are well-formed UTF-8, and then holds the text they encode.
#[verifier::external_body]
fn string_from_utf8(bytes: Vec<u8>) -> (r: Option<String>)
    ensures
        r is Some <==> valid_utf8(bytes@),
        r matches Some(s) ==> s@ == decode_utf8(bytes@),
{
    String::from_utf8(bytes).ok()
}

/// The text that `bytes` encode, when they are well-formed UTF-8.
pub fn text_from_bytes(bytes: Vec<u8>) -> (r: Option<String>)
    ensures
        r is Some <==> valid_utf8(bytes@),
        r matches Some(s) ==> s@ == decode_utf8(bytes@) && encode_utf8(s@) == bytes@,
{
    let r = string_from_utf8(bytes);
    r
}

/// A copy of `b[start..end]`.
pub fn copy_range(b: &[u8], start: usize, end: usize) -> (r: Vec<u8>)
    requires
        start <= end <= b@.len(),
    ensures
        r@ == b@.subrange(start as int, end as int),
{
    let mut out: Vec<u8> = Vec::new();
    let mut i: usize = start;
    while i < end
        invariant
            start <= i <= end <= b@.len(),
            out@ == b@.subrange(start as int, i as int),
        decreases end - i,
    {
        out.push(b[i]);
        i += 1;
        proof {
            assert(out@ =~= b@.subrange(start as int, i as int));
        }
    }
    out
}

/// The text encoded by `b[start..end]`, when it is well-formed UTF-8.
pub fn text_of_range(b: &[u8], start: usize, end: usize) -> (r: Option<String>)
    requires
        start <= end <= b@.len(),
    ensures
        r is Some <==> valid_utf8(b@.subrange(start as int, end as int)),
        r matches Some(s) ==> s@ == decode_utf8(b@.subrange(start as int, end as int)),
{
    text_from_bytes(copy_range(b, start, end))
}

/// The UTF-8 bytes of `s`.
pub fn text_bytes(s: &str) -> (r: Vec<u8>)
    ensures
        r@ == encode_utf8(s@),
{
    vstd::slice::slice_to_vec(s.as_bytes())
}

/// Whether two byte strings are equal.
pub fn bytes_equal(a: &[u8], b: &[u8]) -> (r: bool)
    ensures
        r == (a@ == b@),
{
    if a.len() != b.len() {
        return false;
    }
    let mut i: usize = 0;
    while i < a.len()
        invariant
            a@.len() == b@.len(),
            i <= a@.len(),
            forall|k: int| 0 <= k < i ==> a@[k] == b@[k],
        decreases a@.len() - i,
    {
        if a[i] != b[i] {
            return false;
        }
        i += 1;
    }
    assert(a@ =~= b@);
    true
}

/// Whether two texts are equal.
pub fn same_text(a: &str, b: &str) -> (r: bool)
    ensures
        r == (a@ == b@),
{
    let r = bytes_equal(a.as_bytes(), b.as_bytes());
    proof {
        if r {
            assert(decode_utf8(encode_utf8(a@)) == a@);
            assert(decode_utf8(encode_utf8(b@)) == b@);
        }
    }
    r
}

/// Whether the text `s` is exactly the ASCII word `w`.
pub fn text_is(s: &str, w: &[u8]) -> (r: bool)
    ensures
        r == (encode_utf8(s@) == w@),
{
    bytes_equal(s.as_bytes(), w)
}

} // verus!

verus! {

/// What `str::to_uppercase` returns for a text: its Unicode upper-case
/// mapping, which depends on the text alone.
pub uninterp spec fn uppercase(s: Seq<char>) -> Seq<char>;

/// `str::to_uppercase`. The result is named, not described: it is the
/// Unicode upper-case mapping of the argument, a function of the argument.
#[verifier::external_body]
pub(crate) fn to_uppercase(s: &str) -> (r: String)
    ensures
        r@ == uppercase(s@),
{
    s.to_uppercase()
}

pub proof fn lemma_decimal_digits(n: nat)
    ensures
        decimal(n).len() >= 1,
        forall|i: int| 0 <= i < decimal(n).len() ==> 48 <= #[trigger] decimal(n)[i] <= 57,
    decreases n,
{
    if n >= 10 {
        lemma_decimal_digits(n / 10);
    }
}

/// Bytes below 128 are well-formed UTF-8.
pub proof fn lemma_ascii_valid(b: Seq<u8>)
    requires
        forall|i: int| 0 <= i < b.len() ==> #[trigger] b[i] < 128,
    ensures
        valid_utf8(b),
{
    assert(b.subrange(0, 0) =~= Seq::<u8>::empty());
    assert(valid_utf8(Seq::<u8>::empty())) by {
        reveal_with_fuel(valid_utf8, 1);
    }
    assert forall|i: int| 0 <= 0 <= i < b.len() <= b.len() implies #[trigger]
        vstd::utf8::is_leading_byte_width_1(b[i]) by {}
    vstd::utf8::partial_valid_utf8_extend_ascii_block(b, 0, b.len() as int);
    assert(b.subrange(0, b.len() as int) =~= b);
}

pub proof fn lemma_decimal_valid(n: nat)
    ensures
        valid_utf8(decimal(n)),
{
    lemma_decimal_digits(n);
    lemma_ascii_valid(decimal(n));
}

/// The text of well-formed UTF-8 bytes.
pub fn text_of_valid(bytes: Vec<u8>) -> (r: String)
    requires
        valid_utf8(bytes@),
    ensures
        r@ == decode_utf8(bytes@),
        encode_utf8(r@) == bytes@,
{
    match text_from_bytes(bytes) {
        Some(s) => s,
        None => String::new(),
    }
}

} // verus!

verus! {

/// The index of the first byte `b` at or after `from` in `s`, or -1.
pub open spec fn byte_index(s: Seq<u8>, b: u8, from: int) -> int
    decreases s.len() - from,
{
    if from < 0 || from >= s.len() {
        -1
    } else if s[from] == b {
        from
    } else {
        byte_index(s, b, from + 1)
    }
}

pub proof fn lemma_byte_index(s: Seq<u8>, b: u8, from: int)
    ensures
        byte_index(s, b, from) >= 0 ==> {
            &&& 0 <= from <= byte_index(s, b, from) < s.len()
            &&& s[byte_index(s, b, from)] == b
        },
        byte_index(s, b, from) < 0 ==> byte_index(s, b, from) == -1,
        forall|k: int|
            0 <= from <= k < s.len() && (byte_index(s, b, from) < 0 || k < byte_index(s, b, from))
                ==> s[k] != b,
    decreases s.len() - from,
{
    if 0 <= from < s.len() && s[from] != b {
        lemma_byte_index(s, b, from + 1);
    }
}

/// The index of the first byte `b` in `s`.
pub fn find_byte(s: &[u8], b: u8) -> (r: Option<usize>)
    ensures
        match r {
            Some(i) => byte_index(s@, b, 0) == i,
            None => byte_index(s@, b, 0) < 0,
        },
{
    proof {
        lemma_byte_index(s@, b, 0);
    }
    let mut i: usize = 0;
    while i < s.len()
        invariant
            i <= s@.len(),
            forall|k: int| 0 <= k < i ==> s@[k] != b,
        decreases s@.len() - i,
    {
        if s[i] == b {
            proof {
                lemma_byte_index(s@, b, 0);
            }
            return Some(i);
        }
        i += 1;
    }
    proof {
        lemma_byte_index(s@, b, 0);
        let j = byte_index(s@, b, 0);
        if j >= 0 {
            assert(s@[j] == b);
        }
    }
    None
}

} // verus!

verus! {

/// The texts of a sequence of strings.
pub open spec fn texts(v: Seq<String>) -> Seq<Seq<char>> {
    v.map_values(|s: String| s@)
}

/// The text of an optional string.
pub open spec fn opt_text(o: Option<String>) -> Option<Seq<char>> {
    match o {
        Some(s) => Some(s@),
        None => None,
    }
}

} // verus!

verus! {

/// The encoding of joined texts is the encodings joined.
pub proof fn lemma_encode_concat(a: Seq<char>, b: Seq<char>)
    ensures
        encode_utf8(a + b) == encode_utf8(a) + encode_utf8(b),
    decreases a.len(),
{
    if a.len() == 0 {
        assert(a + b =~= b);
        assert(encode_utf8(a) =~= Seq::<u8>::empty());
        assert(Seq::<u8>::empty() + encode_utf8(b) =~= encode_utf8(b));
    } else {
        lemma_encode_concat(a.drop_first(), b);
        assert((a + b).drop_first() =~= a.drop_first() + b);
        assert((a + b)[0] == a[0]);
        assert(encode_utf8(a + b) =~= vstd::utf8::encode_scalar(a[0] as u32) + encode_utf8(
            a.drop_first() + b,
        ));
    }
}

} // verus!

verus! {

/// `10^k`.
pub open spec fn pow10(k: nat) -> nat
    decreases k,
{
    if k == 0 {
        1
    } else {
        10 * pow10((k - 1) as nat)
    }
}

/// A number below `10^k` has at most `k` digits.
pub proof fn lemma_decimal_len(n: nat, k: nat)
    requires
        k >= 1,
        n < pow10(k),
    ensures
        decimal(n).len() <= k,
    decreases n,
{
    if n >= 10 {
        assert(k >= 2) by {
            if k == 1 {
                assert(pow10(1) == 10) by {
                    reveal_with_fuel(pow10, 2);
                }
            }
        }
        assert(n / 10 < pow10((k - 1) as nat)) by (nonlinear_arith)
            requires
                n < pow10(k),
                pow10(k) == 10 * pow10((k - 1) as nat),
        ;
        lemma_decimal_len(n / 10, (k - 1) as nat);
    }
}

/// The first digit of a positive number's decimal text is not `0`.
pub proof fn lemma_decimal_first(n: nat)
    ensures
        n > 0 ==> decimal(n)[0] != 48,
    decreases n,
{
    lemma_decimal_digits(n);
    if n >= 10 {
        lemma_decimal_first(n / 10);
        lemma_decimal_digits(n / 10);
        assert(decimal(n)[0] == decimal(n / 10)[0]);
    }
}

/// Reading the decimal text of `n` gives `n` back when `n` is in bounds.
pub proof fn lemma_scan_decimal(n: nat, limit: int, ov: NumberError)
    requires
        n <= limit,
    ensures
        scan_digits(decimal(n), decimal(n).len() as int, limit, ov) == Ok::<int, NumberError>(
            n as int,
        ),
    decreases n,
{
    lemma_decimal_digits(n);
    let d = decimal(n);
    if n < 10 {
        assert(scan_digits(d, 0, limit, ov) == Ok::<int, NumberError>(0));
    } else {
        let p = decimal(n / 10);
        lemma_scan_decimal(n / 10, limit, ov);
        lemma_decimal_digits(n / 10);
        assert(d == p.push((48 + n % 10) as u8));
        lemma_scan_prefix(d, p, p.len() as int, limit, ov);
        assert(scan_digits(d, p.len() as int, limit, ov) == Ok::<int, NumberError>((n / 10) as int));
        assert(d[p.len() as int] == (48 + n % 10) as u8);
        assert((n / 10) * 10 + n % 10 == n);
    }
}

/// Zeros in front of a text do not change what it reads as.
pub proof fn lemma_scan_zeros(z: Seq<u8>, d: Seq<u8>, m: int, limit: int, ov: NumberError)
    requires
        forall|i: int| 0 <= i < z.len() ==> #[trigger] z[i] == 48,
        0 <= m <= d.len(),
        0 <= limit,
    ensures
        scan_digits(z + d, z.len() + m, limit, ov) == scan_digits(d, m, limit, ov),
    decreases m,
{
    if m == 0 {
        lemma_scan_zero_prefix(z, d, z.len() as int, limit, ov);
    } else {
        lemma_scan_zeros(z, d, m - 1, limit, ov);
        assert((z + d)[z.len() + m - 1] == d[m - 1]);
    }
}

proof fn lemma_scan_zero_prefix(z: Seq<u8>, d: Seq<u8>, k: int, limit: int, ov: NumberError)
    requires
        forall|i: int| 0 <= i < z.len() ==> #[trigger] z[i] == 48,
        0 <= k <= z.len(),
        0 <= limit,
    ensures
        scan_digits(z + d, k, limit, ov) == Ok::<int, NumberError>(0),
    decreases k,
{
    if k > 0 {
        lemma_scan_zero_prefix(z, d, k - 1, limit, ov);
        assert((z + d)[k - 1] == 48);
    }
}

/// Reading the decimal text of `n` as an unsigned number gives `n`.
pub proof fn lemma_parse_decimal(n: nat, signed: bool, pos_limit: int, neg_limit: int)
    requires
        n <= pos_limit,
    ensures
        parse_number(decimal(n), signed, pos_limit, neg_limit) == Ok::<int, NumberError>(n as int),
{
    lemma_decimal_digits(n);
    lemma_scan_decimal(n, pos_limit, NumberError::PosOverflow);
}

/// Reading the decimal text of an `i64` gives it back.
pub proof fn lemma_parse_decimal_int(i: i64)
    ensures
        parse_i64_spec(decimal_int(i as int)) == Ok::<int, NumberError>(i as int),
{
    if i < 0 {
        let m = (-i) as nat;
        let s = decimal_int(i as int);
        lemma_decimal_digits(m);
        assert(s.drop_first() =~= decimal(m));
        lemma_scan_decimal(m, 0x8000_0000_0000_0000, NumberError::NegOverflow);
    } else {
        lemma_parse_decimal(i as nat, true, i64::MAX as int, 0x8000_0000_0000_0000);
    }
}

} // verus!
