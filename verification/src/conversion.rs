//! Conversions between strings, byte sequences and clock readings.

use vstd::prelude::*;
use vstd::string::*;
use vstd::utf8::*;

use actix_web::http::header::HeaderValue;

use crate::db::Data;
use crate::errors::DbError;

verus! {

#[verifier::external_type_specification]
#[verifier::external_body]
pub struct ExHeaderValue(HeaderValue);

/// Result of a conversion that may fail.
pub type Conversion<T> = Result<T, DbError>;

/// Decide whether two string slices hold the same characters.
///
/// The byte encodings are compared; equal encodings decode to equal
/// character sequences.
pub fn str_eq(a: &str, b: &str) -> (r: bool)
    ensures
        r == (a@ == b@),
{
    let ab = a.as_bytes();
    let bb = b.as_bytes();
    if ab.len() != bb.len() {
        return false;
    }
    let n = ab.len();
    let mut i: usize = 0;
    while i < n
        invariant
            ab@ == a.spec_bytes(),
            bb@ == b.spec_bytes(),
            ab@.len() == bb@.len(),
            n == ab@.len(),
            i <= n,
            forall|j: int| 0 <= j < i ==> ab@[j] == bb@[j],
        decreases n - i,
    {
        if ab[i] != bb[i] {
            return false;
        }
        i += 1;
    }
    proof {
        assert(ab@ =~= bb@);
        encode_utf8_decode_utf8(a@);
        encode_utf8_decode_utf8(b@);
    }
    true
}

/// 256 raised to the power `n`: the number of values of an `n`-byte
/// little-endian field.
pub open spec fn pow256(n: nat) -> int
    decreases n,
{
    if n == 0 {
        1
    } else {
        256 * pow256((n - 1) as nat)
    }
}

pub proof fn lemma_pow256_pos(n: nat)
    ensures
        pow256(n) >= 1,
    decreases n,
{
    if n > 0 {
        lemma_pow256_pos((n - 1) as nat);
    }
}

pub proof fn lemma_pow256_increases(m: nat, n: nat)
    requires
        m <= n,
    ensures
        pow256(m) <= pow256(n),
    decreases n,
{
    if m < n {
        lemma_pow256_increases(m, (n - 1) as nat);
        lemma_pow256_pos((n - 1) as nat);
    }
}

pub proof fn lemma_pow256_consts()
    ensures
        pow256(8) == 0x1_0000_0000_0000_0000,
        pow256(15) == 0x100_0000_0000_0000_0000_0000_0000_0000,
        pow256(16) == 0x1_0000_0000_0000_0000_0000_0000_0000_0000,
{
    reveal_with_fuel(pow256, 17);
}

/// The `n`-byte little-endian encoding of `v` (reduced modulo 256^n).
pub open spec fn le_bytes(v: int, n: nat) -> Seq<u8>
    decreases n,
{
    if n == 0 {
        Seq::empty()
    } else {
        seq![(v % 256) as u8] + le_bytes(v / 256, (n - 1) as nat)
    }
}

/// The value read back from a little-endian byte sequence.
pub open spec fn le_value(s: Seq<u8>) -> int
    decreases s.len(),
{
    if s.len() == 0 {
        0
    } else {
        s[0] + 256 * le_value(s.drop_first())
    }
}

pub proof fn lemma_le_bytes_len(v: int, n: nat)
    ensures
        le_bytes(v, n).len() == n,
    decreases n,
{
    if n > 0 {
        lemma_le_bytes_len(v / 256, (n - 1) as nat);
    }
}

pub proof fn lemma_le_value_bound(s: Seq<u8>)
    ensures
        0 <= le_value(s) < pow256(s.len() as nat),
    decreases s.len(),
{
    if s.len() > 0 {
        lemma_le_value_bound(s.drop_first());
    }
}

/// Reading back an `n`-byte little-endian encoding recovers the value.
pub proof fn lemma_le_round_trip(v: int, n: nat)
    requires
        0 <= v < pow256(n),
    ensures
        le_value(le_bytes(v, n)) == v,
    decreases n,
{
    if n > 0 {
        let m = (n - 1) as nat;
        lemma_le_bytes_len(v / 256, m);
        assert((seq![(v % 256) as u8] + le_bytes(v / 256, m)).drop_first() =~= le_bytes(
            v / 256,
            m,
        ));
        assert(0 <= v / 256 < pow256(m)) by {
            vstd::arithmetic::div_mod::lemma_fundamental_div_mod(v, 256);
        }
        lemma_le_round_trip(v / 256, m);
        vstd::arithmetic::div_mod::lemma_fundamental_div_mod(v, 256);
    }
}

/// The blob stored for a record with expiry stamp `ttl` and payload
/// `payload`: the stamp in 16 little-endian bytes, the payload length in
/// 8 little-endian bytes, then the payload itself.
pub open spec fn encode_spec(ttl: u128, payload: Seq<u8>) -> Seq<u8> {
    le_bytes(ttl as int, 16) + le_bytes(payload.len() as int, 8) + payload
}

/// The record read back from a blob, or `None` if the blob is malformed:
/// shorter than its fixed header, or with a length field that does not
/// match the payload that follows.
pub open spec fn decode_spec(b: Seq<u8>) -> Option<(u128, Seq<u8>)> {
    if b.len() >= 24 && le_value(b.subrange(16, 24)) == b.len() - 24 {
        Some(((le_value(b.subrange(0, 16)) as u128), b.subrange(24, b.len() as int)))
    } else {
        None
    }
}

/// Decoding is the inverse of encoding, for every stamp and every
/// payload a machine can hold, the empty payload included.
pub proof fn lemma_codec_round_trip(ttl: u128, payload: Seq<u8>)
    requires
        payload.len() < 0x1_0000_0000_0000_0000,
    ensures
        decode_spec(encode_spec(ttl, payload)) == Some((ttl, payload)),
{
    lemma_pow256_consts();
    lemma_le_bytes_len(ttl as int, 16);
    lemma_le_bytes_len(payload.len() as int, 8);
    let e = encode_spec(ttl, payload);
    assert(e.subrange(0, 16) =~= le_bytes(ttl as int, 16));
    assert(e.subrange(16, 24) =~= le_bytes(payload.len() as int, 8));
    assert(e.subrange(24, e.len() as int) =~= payload);
    lemma_le_round_trip(ttl as int, 16);
    lemma_le_round_trip(payload.len() as int, 8);
}

/// Append the `width`-byte little-endian encoding of `v`.
fn write_le(out: &mut Vec<u8>, v: u128, width: usize)
    ensures
        final(out)@ == old(out)@ + le_bytes(v as int, width as nat),
{
    let mut x = v;
    let mut i: usize = 0;
    while i < width
        invariant
            i <= width,
            out@ + le_bytes(x as int, (width - i) as nat) == old(out)@ + le_bytes(
                v as int,
                width as nat,
            ),
        decreases width - i,
    {
        let ghost pre = out@;
        let ghost xi = x as int;
        let b = (x % 256) as u8;
        out.push(b);
        x = x / 256;
        i = i + 1;
        proof {
            assert(le_bytes(xi, (width - i + 1) as nat) == seq![(xi % 256) as u8] + le_bytes(
                xi / 256,
                (width - i) as nat,
            ));
            assert(out@ + le_bytes(x as int, (width - i) as nat) =~= pre + le_bytes(
                xi,
                (width - i + 1) as nat,
            ));
        }
    }
    proof {
        assert(out@ + le_bytes(x as int, 0) =~= out@);
    }
}

/// Read the `width`-byte little-endian field at offset `off`.
fn read_le(b: &Vec<u8>, off: usize, width: usize) -> (r: u128)
    requires
        off + width <= b@.len(),
        width <= 16,
    ensures
        r as int == le_value(b@.subrange(off as int, (off + width) as int)),
{
    proof {
        assert(b.len() == b@.len());
    }
    let mut acc: u128 = 0;
    let mut i: usize = width;
    while i > 0
        invariant
            i <= width,
            width <= 16,
            off + width <= b@.len(),
            b@.len() <= usize::MAX,
            acc as int == le_value(b@.subrange((off + i) as int, (off + width) as int)),
        decreases i,
    {
        proof {
            lemma_le_value_bound(b@.subrange((off + i) as int, (off + width) as int));
            lemma_pow256_increases((width - i) as nat, 15);
            lemma_pow256_consts();
        }
        i = i - 1;
        let byte = b[off + i];
        acc = (byte as u128) + 256 * acc;
        proof {
            assert(b@.subrange((off + i) as int, (off + width) as int).drop_first()
                =~= b@.subrange((off + i + 1) as int, (off + width) as int));
        }
    }
    acc
}

/// A value that can be written out as a record blob.
pub trait IntoBytes<T: View> {
    /// The blob that `as_bytes` produces.
    spec fn encoded(&self) -> Seq<u8>;

    /// Write the value out as a blob.
    fn as_bytes(&self) -> (r: Conversion<Vec<u8>>)
        ensures
            r matches Ok(v) && v@ == self.encoded(),
    ;
}

/// A byte buffer that can be read back as a record.
pub trait FromBytes<T: View> {
    /// The record this buffer decodes to, if it is well formed.
    spec fn decoded(&self) -> Option<T::V>;

    /// Read the buffer back as a record.
    fn as_struct(&self) -> (r: Conversion<T>)
        ensures
            match r {
                Ok(d) => self.decoded() == Some(d@),
                Err(e) => self.decoded() is None && e matches DbError::Serialization(_),
            },
    ;
}

impl IntoBytes<Data> for Data {
    open spec fn encoded(&self) -> Seq<u8> {
        encode_spec(self@.0, self@.1)
    }

    fn as_bytes(&self) -> (r: Conversion<Vec<u8>>)
        ensures
            r matches Ok(v) && v@ == self.encoded(),
    {
        let mut out: Vec<u8> = Vec::new();
        write_le(&mut out, self.ttl(), 16);
        let payload = self.payload();
        write_le(&mut out, payload.len() as u128, 8);
        let ghost header = out@;
        let n = payload.len();
        let mut i: usize = 0;
        while i < n
            invariant
                i <= n,
                n == payload@.len(),
                payload@ == self@.1,
                out@ == header + payload@.subrange(0, i as int),
            decreases n - i,
        {
            out.push(payload[i]);
            proof {
                assert(out@ =~= header + payload@.subrange(0, i + 1));
            }
            i = i + 1;
        }
        proof {
            assert(payload@.subrange(0, n as int) =~= payload@);
            assert(out@ =~= encode_spec(self@.0, self@.1));
        }
        Ok(out)
    }
}

impl FromBytes<Data> for Vec<u8> {
    open spec fn decoded(&self) -> Option<(u128, Seq<u8>)> {
        decode_spec(self@)
    }

    fn as_struct(&self) -> (r: Conversion<Data>)
        ensures
            match r {
                Ok(d) => self.decoded() == Some(d@),
                Err(e) => self.decoded() is None && e matches DbError::Serialization(_),
            },
    {
        if self.len() < 24 {
            return Err(DbError::Serialization("record blob is truncated".to_owned()));
        }
        let stored_len = read_le(self, 16, 8);
        if stored_len != (self.len() - 24) as u128 {
            return Err(DbError::Serialization("record blob length does not match".to_owned()));
        }
        proof {
            lemma_le_value_bound(self@.subrange(0, 16));
            lemma_pow256_consts();
        }
        let ttl = read_le(self, 0, 16);
        let n = self.len();
        let mut payload: Vec<u8> = Vec::new();
        let mut i: usize = 24;
        while i < n
            invariant
                24 <= i <= n,
                n == self@.len(),
                payload@ == self@.subrange(24, i as int),
            decreases n - i,
        {
            payload.push(self[i]);
            proof {
                assert(self@.subrange(24, i + 1) =~= self@.subrange(24, i as int).push(
                    self@[i as int],
                ));
            }
            i = i + 1;
        }
        proof {
            assert(payload@ =~= decode_spec(self@)->Some_0.1);
        }
        Ok(Data::new(ttl, payload))
    }
}

/// The decimal digit character for `d`.
pub open spec fn dec_digit(d: int) -> char {
    if d == 0 {
        '0'
    } else if d == 1 {
        '1'
    } else if d == 2 {
        '2'
    } else if d == 3 {
        '3'
    } else if d == 4 {
        '4'
    } else if d == 5 {
        '5'
    } else if d == 6 {
        '6'
    } else if d == 7 {
        '7'
    } else if d == 8 {
        '8'
    } else {
        '9'
    }
}

/// The decimal rendering of a non-negative number, most significant
/// digit first, with no leading zeroes.
pub open spec fn dec_chars(v: int) -> Seq<char>
    decreases v,
{
    if v <= 9 {
        seq![dec_digit(v)]
    } else {
        dec_chars(v / 10) + seq![dec_digit(v % 10)]
    }
}

fn digit_str(d: u8) -> (r: &'static str)
    requires
        d < 10,
    ensures
        r@ == seq![dec_digit(d as int)],
{
    match d {
        0 => {
            proof {
                reveal_strlit("0");
                assert("0"@ =~= seq![dec_digit(0)]);
            }
            "0"
        },
        1 => {
            proof {
                reveal_strlit("1");
                assert("1"@ =~= seq![dec_digit(1)]);
            }
            "1"
        },
        2 => {
            proof {
                reveal_strlit("2");
                assert("2"@ =~= seq![dec_digit(2)]);
            }
            "2"
        },
        3 => {
            proof {
                reveal_strlit("3");
                assert("3"@ =~= seq![dec_digit(3)]);
            }
            "3"
        },
        4 => {
            proof {
                reveal_strlit("4");
                assert("4"@ =~= seq![dec_digit(4)]);
            }
            "4"
        },
        5 => {
            proof {
                reveal_strlit("5");
                assert("5"@ =~= seq![dec_digit(5)]);
            }
            "5"
        },
        6 => {
            proof {
                reveal_strlit("6");
                assert("6"@ =~= seq![dec_digit(6)]);
            }
            "6"
        },
        7 => {
            proof {
                reveal_strlit("7");
                assert("7"@ =~= seq![dec_digit(7)]);
            }
            "7"
        },
        8 => {
            proof {
                reveal_strlit("8");
                assert("8"@ =~= seq![dec_digit(8)]);
            }
            "8"
        },
        _ => {
            proof {
                reveal_strlit("9");
                assert("9"@ =~= seq![dec_digit(9)]);
            }
            "9"
        },
    }
}

fn push_dec(out: &mut String, v: u128)
    ensures
        final(out)@ == old(out)@ + dec_chars(v as int),
    decreases v,
{
    if v >= 10 {
        push_dec(out, v / 10);
        let d = (v % 10) as u8;
        out.append(digit_str(d));
        proof {
            assert(out@ =~= old(out)@ + dec_chars(v as int));
        }
    } else {
        out.append(digit_str(v as u8));
        proof {
            assert(out@ =~= old(out)@ + dec_chars(v as int));
        }
    }
}

/// Render a number in decimal.
pub fn u128_to_string(v: u128) -> (r: String)
    ensures
        r@ == dec_chars(v as int),
{
    let mut s = String::new();
    push_dec(&mut s, v);
    proof {
        assert(Seq::<char>::empty() + dec_chars(v as int) =~= dec_chars(v as int));
    }
    s
}

/// The character `c` with an ASCII capital letter folded to lower case.
pub open spec fn lower_char(c: char) -> char {
    if 65 <= c as u32 && c as u32 <= 90 {
        (((c as u32) as u8) + 32) as char
    } else {
        c
    }
}

/// Whether two character sequences agree up to ASCII letter case.
pub open spec fn eq_ignore_ascii_case_spec(a: Seq<char>, b: Seq<char>) -> bool {
    a.len() == b.len() && forall|i: int| 0 <= i < a.len() ==> lower_char(a[i]) == lower_char(b[i])
}

fn lower_char_exec(c: char) -> (r: char)
    ensures
        r == lower_char(c),
{
    let cu = c as u32;
    if 65 <= cu && cu <= 90 {
        ((cu as u8) + 32) as char
    } else {
        c
    }
}

/// Decide whether two string slices agree up to ASCII letter case.
pub fn eq_ignore_ascii_case(a: &str, b: &str) -> (r: bool)
    ensures
        r == eq_ignore_ascii_case_spec(a@, b@),
{
    let an = a.unicode_len();
    let bn = b.unicode_len();
    if an != bn {
        return false;
    }
    let mut i: usize = 0;
    while i < an
        invariant
            i <= an,
            an == a@.len(),
            an == b@.len(),
            forall|j: int| 0 <= j < i ==> lower_char(a@[j]) == lower_char(b@[j]),
        decreases an - i,
    {
        let ca = a.get_char(i);
        let cb = b.get_char(i);
        if lower_char_exec(ca) != lower_char_exec(cb) {
            return false;
        }
        i += 1;
    }
    true
}

/// Current wall-clock time in milliseconds since the Unix epoch.
///
/// Relies on `std::time::SystemTime::now` together with
/// `SystemTime::duration_since(UNIX_EPOCH)` and `Duration::as_millis`:
/// the reading is taken from the environment, so nothing is promised of
/// its value; a clock before the epoch is reported as a conversion error.
#[verifier::external_body]
pub fn current_ms() -> (r: Conversion<u128>)
    ensures
        r matches Err(e) ==> e matches DbError::Conversion(_),
{
    match std::time::SystemTime::now().duration_since(std::time::UNIX_EPOCH) {
        Ok(d) => Ok(d.as_millis()),
        Err(_) => Err(DbError::Conversion("system clock is before the Unix epoch".to_owned())),
    }
}

/// Whether `c` is a decimal digit.
pub open spec fn is_dec_digit(c: char) -> bool {
    48 <= c as u32 && c as u32 <= 57
}

/// The value of the decimal digit `c`.
pub open spec fn digit_value(c: char) -> int {
    c as u32 - 48
}

/// Whether every character of `s` is a decimal digit.
pub open spec fn all_dec_digits(s: Seq<char>) -> bool {
    forall|i: int| 0 <= i < s.len() ==> is_dec_digit(#[trigger] s[i])
}

/// The number written by a sequence of decimal digits, most significant
/// first.
pub open spec fn dec_value(s: Seq<char>) -> int
    decreases s.len(),
{
    if s.len() == 0 {
        0
    } else {
        dec_value(s.drop_last()) * 10 + digit_value(s.last())
    }
}

/// The digits of a number string: what follows an optional leading `+`.
pub open spec fn parse_digits(s: Seq<char>) -> Seq<char> {
    if s.len() > 0 && s[0] == '+' {
        s.drop_first()
    } else {
        s
    }
}

/// The number a string parses to: an optional leading `+`, then at
/// least one decimal digit, writing a value a `u128` can hold; anything
/// else parses to nothing.
pub open spec fn parse_u128_spec(s: Seq<char>) -> Option<u128> {
    let d = parse_digits(s);
    if d.len() > 0 && all_dec_digits(d) && dec_value(d) <= u128::MAX {
        Some(dec_value(d) as u128)
    } else {
        None
    }
}

proof fn lemma_dec_value_nonneg(s: Seq<char>)
    requires
        all_dec_digits(s),
    ensures
        dec_value(s) >= 0,
    decreases s.len(),
{
    if s.len() > 0 {
        lemma_dec_value_nonneg(s.drop_last());
    }
}

proof fn lemma_dec_value_extend_ge(s: Seq<char>, m: int)
    requires
        all_dec_digits(s),
        0 <= m <= s.len(),
    ensures
        dec_value(s) >= dec_value(s.subrange(0, m)),
    decreases s.len() - m,
{
    if m < s.len() {
        assert(s.subrange(0, m + 1).drop_last() =~= s.subrange(0, m));
        lemma_dec_value_nonneg(s.subrange(0, m));
        assert(dec_value(s.subrange(0, m + 1)) >= dec_value(s.subrange(0, m)));
        lemma_dec_value_extend_ge(s, m + 1);
    } else {
        assert(s.subrange(0, m) =~= s);
    }
}

/// Parse a string as a decimal `u128`.
pub fn parse_u128(s: &str) -> (r: Conversion<u128>)
    ensures
        r matches Ok(v) ==> parse_u128_spec(s@) == Some(v),
        r matches Err(e) ==> parse_u128_spec(s@) is None && e matches DbError::Conversion(_),
{
    let n = s.unicode_len();
    let mut start: usize = 0;
    if n > 0 {
        let c0 = s.get_char(0);
        if c0 as u32 == 43 {
            start = 1;
        }
    }
    let ghost d = parse_digits(s@);
    proof {
        if start == 1 {
            assert(d =~= s@.subrange(1, n as int));
        } else {
            assert(d =~= s@.subrange(0, n as int));
        }
    }
    if start >= n {
        return Err(DbError::Conversion("the value holds no digits".to_owned()));
    }
    let mut acc: u128 = 0;
    let mut i: usize = start;
    while i < n
        invariant
            start <= i <= n,
            n == s@.len(),
            start < n,
            start == 0 || start == 1,
            d == parse_digits(s@),
            d == s@.subrange(start as int, n as int),
            all_dec_digits(s@.subrange(start as int, i as int)),
            acc as int == dec_value(s@.subrange(start as int, i as int)),
        decreases n - i,
    {
        let c = s.get_char(i);
        let cu = c as u32;
        if cu < 48 || cu > 57 {
            proof {
                assert(!is_dec_digit(s@[i as int]));
                assert(d[i - start] == s@[i as int]);
                assert(!all_dec_digits(d));
                assert(parse_u128_spec(s@) is None);
            }
            return Err(DbError::Conversion("the value is not a decimal number".to_owned()));
        }
        let dv = (cu - 48) as u128;
        let next = match acc.checked_mul(10) {
            Some(a) => a.checked_add(dv),
            None => None,
        };
        let acc2 = match next {
            Some(b) => b,
            None => {
                proof {
                    assert(s@.subrange(start as int, i + 1).drop_last() =~= s@.subrange(
                        start as int,
                        i as int,
                    ));
                    assert(s@.subrange(start as int, i + 1).last() == s@[i as int]);
                    assert(dec_value(s@.subrange(start as int, i + 1)) > u128::MAX);
                    if all_dec_digits(d) {
                        lemma_dec_value_extend_ge(d, i + 1 - start);
                        assert(d.subrange(0, i + 1 - start) =~= s@.subrange(start as int, i + 1));
                        assert(dec_value(d) > u128::MAX);
                    }
                    assert(parse_u128_spec(s@) is None);
                }
                return Err(DbError::Conversion("the value does not fit".to_owned()));
            },
        };
        acc = acc2;
        proof {
            assert(s@.subrange(start as int, i + 1).drop_last() =~= s@.subrange(
                start as int,
                i as int,
            ));
        }
        i += 1;
    }
    proof {
        assert(s@.subrange(start as int, n as int) =~= d);
    }
    Ok(acc)
}

/// The absolute expiry stamp for a request: the clock reading plus the
/// requested relative time to live, saturating at the largest stamp; a
/// request with no time to live gets the stamp `0`, which never
/// expires.
pub fn expire_stamp(now: u128, rel: Option<u128>) -> (r: u128)
    ensures
        match rel {
            Some(d) => r == if now + d > u128::MAX {
                u128::MAX
            } else {
                (now + d) as u128
            },
            None => r == 0,
        },
{
    match rel {
        Some(d) => match now.checked_add(d) {
            Some(s) => s,
            None => u128::MAX,
        },
        None => 0,
    }
}

/// The text a header value holds, where it is one: `None` stands for a
/// value with bytes outside the visible ASCII range.
pub uninterp spec fn header_text(h: HeaderValue) -> Option<Seq<char>>;

/// Relies on `HeaderValue::to_str`: it succeeds exactly on visible
/// ASCII contents, handing them back as a string; the result depends on
/// the header value alone.
#[verifier::external_body]
fn header_str(h: &HeaderValue) -> (r: Option<&str>)
    ensures
        match r {
            Some(s) => header_text(*h) == Some(s@),
            None => header_text(*h) is None,
        },
{
    h.to_str().ok()
}

/// Read a header value as a decimal number of milliseconds.
pub fn convert(h: &HeaderValue) -> (r: Conversion<u128>)
    ensures
        match header_text(*h) {
            Some(s) => match parse_u128_spec(s) {
                Some(v) => r == Ok::<u128, DbError>(v),
                None => r matches Err(e) && e matches DbError::Conversion(_),
            },
            None => r matches Err(e) && e matches DbError::Conversion(_),
        },
{
    match header_str(h) {
        Some(s) => parse_u128(s),
        None => Err(DbError::Conversion("the header value is not a string".to_owned())),
    }
}

/// Read a UTF-8 byte sequence back as a string.
///
/// Relies on `String::from_utf8`: it succeeds exactly on valid UTF-8
/// input and returns its decoding.
#[verifier::external_body]
pub fn bytes_to_str(bytes: &[u8]) -> (r: Conversion<String>)
    ensures
        r is Ok <==> valid_utf8(bytes@),
        r matches Ok(s) ==> s@ == decode_utf8(bytes@),
        r matches Err(e) ==> e matches DbError::Conversion(_),
{
    match String::from_utf8(bytes.to_vec()) {
        Ok(s) => Ok(s),
        Err(_) => Err(DbError::Conversion("the bytes are not valid UTF-8".to_owned())),
    }
}

} // verus!

