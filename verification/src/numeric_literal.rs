//! The literal decoder: numeric-literal token text to typed numeric value.
//!
//! The grammar is suffix-driven: the characters before the first signature
//! character (`d`, `b`, `f`, `i`, `u`) form the numeric body; the signature
//! and the digits following it select the kind and bit width. Bodies may use
//! the scientific form `mantissa E exponent`, whose value is
//! `mantissa * 10^exponent`.
//!
//! Floating-point literals are carried as their validated body text together
//! with the bit width: the front end never reads a float's numeric value
//! (only later lowering stages do), so the body text is the value the
//! pipeline transports.

use vstd::prelude::*;
use crate::errors::LiteralError;

verus! {

// ---------------------------------------------------------------------------
// Decimal digit text
// ---------------------------------------------------------------------------

pub open spec fn is_digit_char(c: char) -> bool {
    48 <= c as u32 && c as u32 <= 57
}

pub open spec fn digit_val(c: char) -> int {
    c as u32 - 48
}

pub open spec fn all_digits(s: Seq<char>) -> bool {
    forall|i: int| 0 <= i < s.len() ==> is_digit_char(#[trigger] s[i])
}

/// The value of a string of decimal digits, most significant first.
pub open spec fn digits_val(s: Seq<char>) -> int
    decreases s.len(),
{
    if s.len() == 0 {
        0
    } else {
        digits_val(s.drop_last()) * 10 + digit_val(s.last())
    }
}

pub proof fn lemma_digits_val_nonneg(s: Seq<char>)
    requires
        all_digits(s),
    ensures
        digits_val(s) >= 0,
    decreases s.len(),
{
    if s.len() > 0 {
        assert(all_digits(s.drop_last()));
        lemma_digits_val_nonneg(s.drop_last());
    }
}

/// Extending a digit string to the right never decreases its value.
pub proof fn lemma_digits_val_prefix_le(s: Seq<char>, k: int)
    requires
        all_digits(s),
        0 <= k <= s.len(),
    ensures
        digits_val(s.subrange(0, k)) <= digits_val(s),
    decreases s.len() - k,
{
    if k == s.len() {
        assert(s.subrange(0, k) =~= s);
    } else {
        let p = s.subrange(0, k);
        let q = s.subrange(0, k + 1);
        assert(q.drop_last() =~= p);
        assert(all_digits(p));
        lemma_digits_val_nonneg(p);
        assert(digits_val(q) == digits_val(p) * 10 + digit_val(s[k]));
        lemma_digits_val_prefix_le(s, k + 1);
    }
}

/// Valid decimal text for a `u64`: nonempty, all digits, in range.
pub open spec fn u64_text_valid(s: Seq<char>) -> bool {
    s.len() > 0 && all_digits(s) && digits_val(s) <= u64::MAX
}

/// Valid decimal text for a `u8` bit width.
pub open spec fn u8_text_valid(s: Seq<char>) -> bool {
    s.len() > 0 && all_digits(s) && digits_val(s) <= u8::MAX
}

/// Valid decimal text for an `i64`: an optional leading minus sign, then
/// nonempty digits, the value in range.
pub open spec fn i64_text_valid(s: Seq<char>) -> bool {
    if s.len() > 0 && s[0] == '-' {
        let d = s.subrange(1, s.len() as int);
        d.len() > 0 && all_digits(d) && digits_val(d) <= 0x8000_0000_0000_0000
    } else {
        s.len() > 0 && all_digits(s) && digits_val(s) <= i64::MAX
    }
}

/// The value denoted by valid `i64` text.
pub open spec fn i64_text_val(s: Seq<char>) -> int {
    if s.len() > 0 && s[0] == '-' {
        -digits_val(s.subrange(1, s.len() as int))
    } else {
        digits_val(s)
    }
}

/// Parses the digits of `s[from..to]` as a `u64`, or reports that they are
/// not valid `u64` text.
pub fn parse_atomic_unsigned(s: &Vec<char>, from: usize, to: usize) -> (r: Option<u64>)
    requires
        from <= to <= s@.len(),
    ensures
        r is Some <==> u64_text_valid(s@.subrange(from as int, to as int)),
        r matches Some(v) ==> v == digits_val(s@.subrange(from as int, to as int)),
{
    let ghost sub = s@.subrange(from as int, to as int);
    if from == to {
        return None;
    }
    let mut acc: u64 = 0;
    let mut i: usize = from;
    while i < to
        invariant
            from <= i <= to <= s@.len(),
            sub == s@.subrange(from as int, to as int),
            all_digits(s@.subrange(from as int, i as int)),
            acc == digits_val(s@.subrange(from as int, i as int)),
        decreases to - i,
    {
        let ghost pre = s@.subrange(from as int, i as int);
        let ghost ext = s@.subrange(from as int, i as int + 1);
        proof {
            assert(ext.drop_last() =~= pre);
            assert(ext.last() == s@[i as int]);
        }
        let c = s[i] as u32;
        if c < 48 || c > 57 {
            proof {
                assert(sub[i as int - from as int] == s@[i as int]);
                assert(!is_digit_char(s@[i as int]));
            }
            return None;
        }
        let d = (c - 48) as u64;
        proof {
            assert(is_digit_char(s@[i as int]));
            assert(digit_val(s@[i as int]) == d as int);
            assert(digits_val(ext) == digits_val(pre) * 10 + digit_val(s@[i as int]));
            assert(all_digits(ext)) by {
                assert(forall|j: int| 0 <= j < ext.len() - 1 ==> ext[j] == pre[j]);
            }
        }
        let step = match acc.checked_mul(10) {
            Some(m) => m.checked_add(d),
            None => None,
        };
        match step {
            Some(v) => {
                acc = v;
            },
            None => {
                proof {
                    assert(digits_val(ext) > u64::MAX);
                    assert(ext =~= sub.subrange(0, i as int + 1 - from as int));
                    if all_digits(sub) {
                        lemma_digits_val_prefix_le(sub, i as int + 1 - from as int);
                    }
                }
                return None;
            },
        }
        i = i + 1;
    }
    proof {
        assert(s@.subrange(from as int, i as int) =~= sub);
    }
    Some(acc)
}

/// Parses `s[from..to]` as an `i64` with an optional leading minus sign.
pub fn parse_atomic_integer(s: &Vec<char>, from: usize, to: usize) -> (r: Option<i64>)
    requires
        from <= to <= s@.len(),
    ensures
        r is Some <==> i64_text_valid(s@.subrange(from as int, to as int)),
        r matches Some(v) ==> v == i64_text_val(s@.subrange(from as int, to as int)),
{
    let ghost sub = s@.subrange(from as int, to as int);
    if from < to && s[from] == '-' {
        proof {
            assert(sub[0] == s@[from as int]);
            assert(sub.subrange(1, sub.len() as int) =~= s@.subrange(from as int + 1, to as int));
        }
        match parse_atomic_unsigned(s, from + 1, to) {
            Some(mag) => {
                if mag > 0x8000_0000_0000_0000u64 {
                    None
                } else if mag == 0x8000_0000_0000_0000u64 {
                    Some(i64::MIN)
                } else {
                    Some(-(mag as i64))
                }
            },
            None => None,
        }
    } else {
        match parse_atomic_unsigned(s, from, to) {
            Some(mag) => {
                if mag > i64::MAX as u64 {
                    None
                } else {
                    Some(mag as i64)
                }
            },
            None => None,
        }
    }
}

// ---------------------------------------------------------------------------
// Scanning for distinguished characters
// ---------------------------------------------------------------------------

/// The first index `>= i` at which `c` occurs, or the length if none.
pub open spec fn find_char_from(s: Seq<char>, i: int, c: char) -> int
    decreases s.len() - i,
{
    if i < 0 || i >= s.len() {
        s.len() as int
    } else if s[i] == c {
        i
    } else {
        find_char_from(s, i + 1, c)
    }
}

pub proof fn lemma_find_char_from(s: Seq<char>, i: int, c: char)
    requires
        0 <= i <= s.len(),
    ensures
        i <= find_char_from(s, i, c) <= s.len(),
        find_char_from(s, i, c) < s.len() ==> s[find_char_from(s, i, c)] == c,
        forall|j: int| i <= j < find_char_from(s, i, c) ==> s[j] != c,
    decreases s.len() - i,
{
    if i < s.len() && s[i] != c {
        lemma_find_char_from(s, i + 1, c);
    }
}

/// Powers of ten.
pub open spec fn pow10(e: nat) -> int
    decreases e,
{
    if e == 0 {
        1
    } else {
        10 * pow10((e - 1) as nat)
    }
}

pub proof fn lemma_pow10_pos(e: nat)
    ensures
        pow10(e) >= 1,
    decreases e,
{
    if e > 0 {
        lemma_pow10_pos((e - 1) as nat);
    }
}

pub proof fn lemma_pow10_mono(a: nat, b: nat)
    requires
        a <= b,
    ensures
        pow10(a) <= pow10(b),
    decreases b,
{
    if a < b {
        lemma_pow10_mono(a, (b - 1) as nat);
        lemma_pow10_pos((b - 1) as nat);
    }
}

/// `10^19` is the largest power of ten a `u64` can hold.
pub proof fn lemma_pow10_u64_range()
    ensures
        pow10(19) <= u64::MAX,
        pow10(20) > u64::MAX,
{
    assert(pow10(0) == 1);
    assert(pow10(1) == 10);
    assert(pow10(2) == 100);
    assert(pow10(3) == 1000);
    assert(pow10(4) == 10000);
    assert(pow10(5) == 100000);
    assert(pow10(6) == 1000000);
    assert(pow10(7) == 10000000);
    assert(pow10(8) == 100000000);
    assert(pow10(9) == 1000000000);
    assert(pow10(10) == 10000000000);
    assert(pow10(11) == 100000000000);
    assert(pow10(12) == 1000000000000);
    assert(pow10(13) == 10000000000000);
    assert(pow10(14) == 100000000000000);
    assert(pow10(15) == 1000000000000000);
    assert(pow10(16) == 10000000000000000);
    assert(pow10(17) == 100000000000000000);
    assert(pow10(18) == 1000000000000000000);
    assert(pow10(19) == 10000000000000000000);
    assert(pow10(20) == 100000000000000000000);
}

/// Computes `10^e` in a `u64`, or reports that it does not fit.
fn pow10_u64(e: u64) -> (r: Option<u64>)
    ensures
        r is Some <==> e <= 19,
        r matches Some(p) ==> p == pow10(e as nat),
{
    proof {
        lemma_pow10_u64_range();
    }
    if e > 19 {
        return None;
    }
    let mut acc: u64 = 1;
    let mut i: u64 = 0;
    while i < e
        invariant
            i <= e <= 19,
            acc == pow10(i as nat),
        decreases e - i,
    {
        proof {
            lemma_pow10_mono((i + 1) as nat, 19);
            lemma_pow10_u64_range();
        }
        acc = acc * 10;
        i = i + 1;
    }
    Some(acc)
}

/// Finds the first `c` within `s[from..to]`; the result is absolute.
fn find_char(s: &Vec<char>, from: usize, to: usize, c: char) -> (r: usize)
    requires
        from <= to <= s@.len(),
    ensures
        r - from == find_char_from(s@.subrange(from as int, to as int), 0, c),
        from <= r <= to,
{
    let ghost sub = s@.subrange(from as int, to as int);
    let mut j: usize = from;
    while j < to
        invariant
            from <= j <= to <= s@.len(),
            sub == s@.subrange(from as int, to as int),
            find_char_from(sub, 0, c) == find_char_from(sub, j - from, c),
        decreases to - j,
    {
        if s[j] == c {
            proof {
                assert(sub[j - from] == s@[j as int]);
            }
            return j;
        }
        proof {
            assert(sub[j - from] == s@[j as int]);
        }
        j = j + 1;
    }
    to
}

// ---------------------------------------------------------------------------
// Body parsing with the scientific form
// ---------------------------------------------------------------------------

/// What an unsigned body (optionally `mantissa E exponent`) denotes.
pub open spec fn parse_u_spec(body: Seq<char>) -> Result<u64, LiteralError> {
    let k = find_char_from(body, 0, 'E');
    if k == body.len() {
        if u64_text_valid(body) {
            Ok(digits_val(body) as u64)
        } else {
            Err(LiteralError::InvalidBody)
        }
    } else {
        let m = body.subrange(0, k);
        let e = body.subrange(k + 1, body.len() as int);
        if !u64_text_valid(m) {
            Err(LiteralError::InvalidBody)
        } else if !u64_text_valid(e) {
            Err(LiteralError::InvalidExponent)
        } else if digits_val(m) * pow10(digits_val(e) as nat) > u64::MAX {
            Err(LiteralError::ValueOutOfRange)
        } else {
            Ok((digits_val(m) * pow10(digits_val(e) as nat)) as u64)
        }
    }
}

/// What a signed body (optionally `mantissa E exponent`) denotes.
pub open spec fn parse_i_spec(body: Seq<char>) -> Result<i64, LiteralError> {
    let k = find_char_from(body, 0, 'E');
    if k == body.len() {
        if i64_text_valid(body) {
            Ok(i64_text_val(body) as i64)
        } else {
            Err(LiteralError::InvalidBody)
        }
    } else {
        let m = body.subrange(0, k);
        let e = body.subrange(k + 1, body.len() as int);
        if !i64_text_valid(m) {
            Err(LiteralError::InvalidBody)
        } else if !u64_text_valid(e) {
            Err(LiteralError::InvalidExponent)
        } else {
            let v = i64_text_val(m) * pow10(digits_val(e) as nat);
            if i64::MIN <= v <= i64::MAX {
                Ok(v as i64)
            } else {
                Err(LiteralError::ValueOutOfRange)
            }
        }
    }
}

/// Parses `s[from..to]` as an unsigned body, scientific form included.
pub fn parse_u(s: &Vec<char>, from: usize, to: usize) -> (r: Result<u64, LiteralError>)
    requires
        from <= to <= s@.len(),
    ensures
        r == parse_u_spec(s@.subrange(from as int, to as int)),
{
    let ghost body = s@.subrange(from as int, to as int);
    let k_abs = find_char(s, from, to, 'E');
    let ghost k = k_abs - from;
    proof {
        lemma_find_char_from(body, 0, 'E');
    }
    if k_abs == to {
        match parse_atomic_unsigned(s, from, to) {
            Some(v) => Ok(v),
            None => Err(LiteralError::InvalidBody),
        }
    } else {
        proof {
            assert(body.subrange(0, k) =~= s@.subrange(from as int, k_abs as int));
            assert(body.subrange(k + 1, body.len() as int) =~= s@.subrange(
                k_abs as int + 1,
                to as int,
            ));
        }
        let m = match parse_atomic_unsigned(s, from, k_abs) {
            Some(v) => v,
            None => {
                return Err(LiteralError::InvalidBody);
            },
        };
        let e = match parse_atomic_unsigned(s, k_abs + 1, to) {
            Some(v) => v,
            None => {
                return Err(LiteralError::InvalidExponent);
            },
        };
        if m == 0 {
            proof {
                lemma_pow10_pos(e as nat);
                let ghost mt = body.subrange(0, k);
                let ghost et = body.subrange(k + 1, body.len() as int);
                assert(digits_val(mt) == 0);
                assert(digits_val(mt) * pow10(digits_val(et) as nat) == 0) by (nonlinear_arith)
                    requires
                        digits_val(mt) == 0,
                {
                }
            }
            return Ok(0);
        }
        match pow10_u64(e) {
            Some(p) => {
                match m.checked_mul(p) {
                    Some(v) => Ok(v),
                    None => Err(LiteralError::ValueOutOfRange),
                }
            },
            None => {
                proof {
                    lemma_pow10_mono(20, e as nat);
                    lemma_pow10_u64_range();
                    assert(m as int * pow10(e as nat) >= pow10(e as nat)) by (nonlinear_arith)
                        requires
                            m >= 1,
                            pow10(e as nat) >= 1,
                    {
                    }
                    lemma_pow10_pos(e as nat);
                }
                Err(LiteralError::ValueOutOfRange)
            },
        }
    }
}

/// Parses `s[from..to]` as a signed body, scientific form included.
pub fn parse_i(s: &Vec<char>, from: usize, to: usize) -> (r: Result<i64, LiteralError>)
    requires
        from <= to <= s@.len(),
    ensures
        r == parse_i_spec(s@.subrange(from as int, to as int)),
{
    let ghost body = s@.subrange(from as int, to as int);
    let k_abs = find_char(s, from, to, 'E');
    let ghost k = k_abs - from;
    proof {
        lemma_find_char_from(body, 0, 'E');
    }
    if k_abs == to {
        match parse_atomic_integer(s, from, to) {
            Some(v) => Ok(v),
            None => Err(LiteralError::InvalidBody),
        }
    } else {
        proof {
            assert(body.subrange(0, k) =~= s@.subrange(from as int, k_abs as int));
            assert(body.subrange(k + 1, body.len() as int) =~= s@.subrange(
                k_abs as int + 1,
                to as int,
            ));
        }
        let ghost m_text = body.subrange(0, k);
        let m_val = match parse_atomic_integer(s, from, k_abs) {
            Some(v) => v,
            None => {
                return Err(LiteralError::InvalidBody);
            },
        };
        let e = match parse_atomic_unsigned(s, k_abs + 1, to) {
            Some(v) => v,
            None => {
                return Err(LiteralError::InvalidExponent);
            },
        };
        let ghost v_spec = i64_text_val(m_text) * pow10(digits_val(
            body.subrange(k + 1, body.len() as int),
        ) as nat);
        let mag: u64 = if m_val == i64::MIN {
            0x8000_0000_0000_0000u64
        } else if m_val < 0 {
            (-m_val) as u64
        } else {
            m_val as u64
        };
        if mag == 0 {
            proof {
                lemma_pow10_pos(e as nat);
                assert(v_spec == 0) by (nonlinear_arith)
                    requires
                        i64_text_val(m_text) == 0,
                        v_spec == i64_text_val(m_text) * pow10(digits_val(
                            body.subrange(k + 1, body.len() as int),
                        ) as nat),
                {
                }
            }
            return Ok(0);
        }
        let prod = match pow10_u64(e) {
            Some(p) => {
                match mag.checked_mul(p) {
                    Some(v) => v,
                    None => {
                        proof {
                            lemma_abs_product_out_of_range(
                                m_val as int,
                                mag as int,
                                pow10(e as nat),
                                v_spec,
                            );
                        }
                        return Err(LiteralError::ValueOutOfRange);
                    },
                }
            },
            None => {
                proof {
                    lemma_pow10_mono(20, e as nat);
                    lemma_pow10_u64_range();
                    assert(mag as int * pow10(e as nat) >= pow10(e as nat)) by (nonlinear_arith)
                        requires
                            mag >= 1,
                            pow10(e as nat) >= 1,
                    {
                    }
                    lemma_abs_product_out_of_range(
                        m_val as int,
                        mag as int,
                        pow10(e as nat),
                        v_spec,
                    );
                }
                return Err(LiteralError::ValueOutOfRange);
            },
        };
        proof {
            assert(v_spec == if m_val < 0 {
                -(mag as int * pow10(e as nat))
            } else {
                mag as int * pow10(e as nat)
            }) by (nonlinear_arith)
                requires
                    v_spec == m_val as int * pow10(e as nat),
                    mag as int == if m_val < 0 {
                        -(m_val as int)
                    } else {
                        m_val as int
                    },
            {
            }
        }
        if m_val < 0 {
            if prod > 0x8000_0000_0000_0000u64 {
                Err(LiteralError::ValueOutOfRange)
            } else if prod == 0x8000_0000_0000_0000u64 {
                Ok(i64::MIN)
            } else {
                Ok(-(prod as i64))
            }
        } else {
            if prod > i64::MAX as u64 {
                Err(LiteralError::ValueOutOfRange)
            } else {
                Ok(prod as i64)
            }
        }
    }
}

/// When the magnitude of `m * p` exceeds `u64::MAX`, the signed product
/// lies outside the `i64` range.
proof fn lemma_abs_product_out_of_range(m: int, mag: int, p: int, v: int)
    requires
        mag == if m < 0 {
            -m
        } else {
            m
        },
        p >= 1,
        v == m * p,
        mag * p > u64::MAX,
    ensures
        v < i64::MIN || v > i64::MAX,
{
    assert(v == if m < 0 {
        -(mag * p)
    } else {
        mag * p
    }) by (nonlinear_arith)
        requires
            v == m * p,
            mag == if m < 0 {
                -m
            } else {
                m
            },
    {
    }
}

/// Parses `s[from..to]` as a `u8` bit width.
fn parse_width(s: &Vec<char>, from: usize, to: usize) -> (r: Option<u8>)
    requires
        from <= to <= s@.len(),
    ensures
        r is Some <==> u8_text_valid(s@.subrange(from as int, to as int)),
        r matches Some(v) ==> v == digits_val(s@.subrange(from as int, to as int)),
{
    match parse_atomic_unsigned(s, from, to) {
        Some(v) => {
            if v > u8::MAX as u64 {
                None
            } else {
                Some(v as u8)
            }
        },
        None => None,
    }
}

// ---------------------------------------------------------------------------
// Signature and width extraction
// ---------------------------------------------------------------------------

/// The five signature characters that end a numeric body.
pub open spec fn is_sig_char(c: char) -> bool {
    c == 'd' || c == 'b' || c == 'f' || c == 'i' || c == 'u'
}

/// The first index `>= i` holding a signature character, or the length.
pub open spec fn find_sig_from(s: Seq<char>, i: int) -> int
    decreases s.len() - i,
{
    if i < 0 || i >= s.len() {
        s.len() as int
    } else if is_sig_char(s[i]) {
        i
    } else {
        find_sig_from(s, i + 1)
    }
}

pub proof fn lemma_find_sig_from(s: Seq<char>, i: int)
    requires
        0 <= i <= s.len(),
    ensures
        i <= find_sig_from(s, i) <= s.len(),
        find_sig_from(s, i) < s.len() ==> is_sig_char(s[find_sig_from(s, i)]),
        forall|j: int| i <= j < find_sig_from(s, i) ==> !is_sig_char(s[j]),
    decreases s.len() - i,
{
    if i < s.len() && !is_sig_char(s[i]) {
        lemma_find_sig_from(s, i + 1);
    }
}

/// The signature found after a numeric body: a kind character alone (the
/// width is implied) or a kind character with an explicit bit width.
#[derive(Debug, Clone, Copy, PartialEq, Eq, Structural)]
pub enum ExtractSignatureAndVolumeResult {
    Signature(char),
    SignatureAndVolume(char, u8),
}

/// Splits literal text into body, signature and width, as the decoder
/// reads it: the body is everything before the first signature character;
/// `d` is double shorthand, `b` is boolean, `f`/`i`/`u` take the rest of
/// the text as an optional explicit width.
pub open spec fn extract_spec(s: Seq<char>) -> Result<
    (Seq<char>, ExtractSignatureAndVolumeResult),
    LiteralError,
> {
    let k = find_sig_from(s, 0);
    if k == s.len() {
        Ok((s, ExtractSignatureAndVolumeResult::Signature('i')))
    } else {
        let body = s.subrange(0, k);
        let c = s[k];
        if c == 'd' {
            Ok((body, ExtractSignatureAndVolumeResult::SignatureAndVolume('f', 64)))
        } else if c == 'b' {
            Ok((body, ExtractSignatureAndVolumeResult::Signature('b')))
        } else {
            let vol = s.subrange(k + 1, s.len() as int);
            if vol.len() == 0 {
                if c == 'f' {
                    Ok((body, ExtractSignatureAndVolumeResult::SignatureAndVolume('f', 32)))
                } else {
                    Ok((body, ExtractSignatureAndVolumeResult::Signature(c)))
                }
            } else if u8_text_valid(vol) {
                Ok(
                    (
                        body,
                        ExtractSignatureAndVolumeResult::SignatureAndVolume(
                            c,
                            digits_val(vol) as u8,
                        ),
                    ),
                )
            } else {
                Err(LiteralError::InvalidWidth)
            }
        }
    }
}

/// Whether `c` is one of the five signature characters.
fn sig_char(c: char) -> (r: bool)
    ensures
        r == is_sig_char(c),
{
    c == 'd' || c == 'b' || c == 'f' || c == 'i' || c == 'u'
}

/// Finds the body/signature/width split of `s`. Returns the index where
/// the body ends together with the signature; the body is `s[0..end]`.
fn extract_signature_and_volume_and_base(s: &Vec<char>) -> (r: Result<
    (usize, ExtractSignatureAndVolumeResult),
    LiteralError,
>)
    ensures
        r matches Ok((end, sv)) ==> end <= s@.len() && extract_spec(s@) == Ok::<
            _,
            LiteralError,
        >((s@.subrange(0, end as int), sv)),
        r matches Err(e) ==> extract_spec(s@) == Err::<(Seq<char>, ExtractSignatureAndVolumeResult), _>(e),
{
    let n = s.len();
    let mut k: usize = 0;
    while k < n && !sig_char(s[k])
        invariant
            k <= n == s@.len(),
            find_sig_from(s@, 0) == find_sig_from(s@, k as int),
        decreases n - k,
    {
        k = k + 1;
    }
    proof {
        assert(find_sig_from(s@, 0) == k as int);
    }
    if k == n {
        proof {
            assert(s@.subrange(0, n as int) =~= s@);
        }
        return Ok((n, ExtractSignatureAndVolumeResult::Signature('i')));
    }
    let c = s[k];
    if c == 'd' {
        Ok((k, ExtractSignatureAndVolumeResult::SignatureAndVolume('f', 64)))
    } else if c == 'b' {
        Ok((k, ExtractSignatureAndVolumeResult::Signature('b')))
    } else {
        if k + 1 == n {
            if c == 'f' {
                Ok((k, ExtractSignatureAndVolumeResult::SignatureAndVolume('f', 32)))
            } else {
                Ok((k, ExtractSignatureAndVolumeResult::Signature(c)))
            }
        } else {
            match parse_width(s, k + 1, n) {
                Some(w) => Ok((k, ExtractSignatureAndVolumeResult::SignatureAndVolume(c, w))),
                None => Err(LiteralError::InvalidWidth),
            }
        }
    }
}

// ---------------------------------------------------------------------------
// Floating-point body text
// ---------------------------------------------------------------------------

pub open spec fn count_char(s: Seq<char>, c: char) -> int
    decreases s.len(),
{
    if s.len() == 0 {
        0
    } else {
        count_char(s.drop_last(), c) + if s.last() == c {
            1int
        } else {
            0int
        }
    }
}

/// A nonempty run of digits with at most one decimal point and at least
/// one digit.
pub open spec fn digits_dot_run(t: Seq<char>) -> bool {
    &&& t.len() > 0
    &&& forall|i: int| 0 <= i < t.len() ==> (is_digit_char(#[trigger] t[i]) || t[i] == '.')
    &&& count_char(t, '.') <= 1
    &&& t.len() - count_char(t, '.') >= 1
}

/// Valid mantissa text: an optional minus sign, then a digit run with at
/// most one decimal point.
pub open spec fn mantissa_valid(s: Seq<char>) -> bool {
    if s.len() > 0 && s[0] == '-' {
        digits_dot_run(s.subrange(1, s.len() as int))
    } else {
        digits_dot_run(s)
    }
}

/// Checks floating-point body text: a mantissa, optionally followed by
/// `E` and a signed integer exponent.
pub open spec fn float_body_check(s: Seq<char>) -> Result<(), LiteralError> {
    let k = find_char_from(s, 0, 'E');
    if k == s.len() {
        if mantissa_valid(s) {
            Ok(())
        } else {
            Err(LiteralError::InvalidBody)
        }
    } else {
        if !mantissa_valid(s.subrange(0, k)) {
            Err(LiteralError::InvalidBody)
        } else if !i64_text_valid(s.subrange(k + 1, s.len() as int)) {
            Err(LiteralError::InvalidExponent)
        } else {
            Ok(())
        }
    }
}

pub open spec fn float_text_valid(s: Seq<char>) -> bool {
    float_body_check(s) is Ok
}

/// Checks that `s[from..to]` is valid mantissa text.
fn check_mantissa(s: &Vec<char>, from: usize, to: usize) -> (r: bool)
    requires
        from <= to <= s@.len(),
    ensures
        r == mantissa_valid(s@.subrange(from as int, to as int)),
{
    let ghost sub = s@.subrange(from as int, to as int);
    let start: usize = if from < to && s[from] == '-' {
        from + 1
    } else {
        from
    };
    let ghost t = if sub.len() > 0 && sub[0] == '-' {
        sub.subrange(1, sub.len() as int)
    } else {
        sub
    };
    proof {
        if from < to {
            assert(sub[0] == s@[from as int]);
        }
        assert(t =~= s@.subrange(start as int, to as int));
    }
    let mut dots: usize = 0;
    let mut i: usize = start;
    while i < to
        invariant
            from <= start <= i <= to <= s@.len(),
            sub == s@.subrange(from as int, to as int),
            t == s@.subrange(start as int, to as int),
            t == (if sub.len() > 0 && sub[0] == '-' {
                sub.subrange(1, sub.len() as int)
            } else {
                sub
            }),
            dots <= i - start,
            dots == count_char(s@.subrange(start as int, i as int), '.'),
            forall|j: int|
                0 <= j < i - start ==> (is_digit_char(#[trigger] t[j]) || t[j] == '.'),
        decreases to - i,
    {
        let ghost pre = s@.subrange(start as int, i as int);
        let ghost ext = s@.subrange(start as int, i as int + 1);
        proof {
            assert(ext.drop_last() =~= pre);
            assert(ext.last() == s@[i as int]);
            assert(t[i - start] == s@[i as int]);
        }
        let c = s[i];
        let u = c as u32;
        if c == '.' {
            dots = dots + 1;
        } else if u < 48 || u > 57 {
            proof {
                assert(t[i - start] == s@[i as int]);
                assert(!is_digit_char(t[i - start]) && t[i - start] != '.');
                assert(!digits_dot_run(t));
                assert(mantissa_valid(sub) == digits_dot_run(t));
            }
            return false;
        }
        i = i + 1;
    }
    proof {
        assert(s@.subrange(start as int, i as int) =~= t);
        assert(mantissa_valid(sub) == digits_dot_run(t));
    }
    to - start > 0 && dots <= 1 && (to - start) - dots >= 1
}

/// Checks that `s[from..to]` is valid floating-point body text.
fn check_float_body(s: &Vec<char>, from: usize, to: usize) -> (r: Result<(), LiteralError>)
    requires
        from <= to <= s@.len(),
    ensures
        r == float_body_check(s@.subrange(from as int, to as int)),
{
    let ghost body = s@.subrange(from as int, to as int);
    let k_abs = find_char(s, from, to, 'E');
    let ghost k = k_abs - from;
    proof {
        lemma_find_char_from(body, 0, 'E');
    }
    if k_abs == to {
        if check_mantissa(s, from, to) {
            Ok(())
        } else {
            Err(LiteralError::InvalidBody)
        }
    } else {
        proof {
            assert(body.subrange(0, k) =~= s@.subrange(from as int, k_abs as int));
            assert(body.subrange(k + 1, body.len() as int) =~= s@.subrange(
                k_abs as int + 1,
                to as int,
            ));
        }
        if !check_mantissa(s, from, k_abs) {
            Err(LiteralError::InvalidBody)
        } else {
            match parse_atomic_integer(s, k_abs + 1, to) {
                Some(_) => Ok(()),
                None => Err(LiteralError::InvalidExponent),
            }
        }
    }
}

// ---------------------------------------------------------------------------
// The literal value
// ---------------------------------------------------------------------------

/// A decoded numeric literal. The width of `Float`, `Uint` and `Int` is a
/// bit-width annotation carried for later lowering; it does not constrain
/// the stored magnitude. A float's value is carried as its validated body
/// text, which only the (out-of-scope) lowering stage turns into a machine
/// float.
#[derive(Debug, Clone, PartialEq)]
pub enum NumericLiteral {
    Float(u8, String),
    SysUint(u64),
    Uint(u8, u64),
    SysInt(i64),
    Int(u8, i64),
    Boolean(bool),
}

/// Mathematical image of a `NumericLiteral`.
pub enum NumericLiteralV {
    Float(u8, Seq<char>),
    SysUint(u64),
    Uint(u8, u64),
    SysInt(i64),
    Int(u8, i64),
    Boolean(bool),
}

impl View for NumericLiteral {
    type V = NumericLiteralV;

    open spec fn view(&self) -> NumericLiteralV {
        match self {
            NumericLiteral::Float(w, t) => NumericLiteralV::Float(*w, t@),
            NumericLiteral::SysUint(n) => NumericLiteralV::SysUint(*n),
            NumericLiteral::Uint(w, n) => NumericLiteralV::Uint(*w, *n),
            NumericLiteral::SysInt(n) => NumericLiteralV::SysInt(*n),
            NumericLiteral::Int(w, n) => NumericLiteralV::Int(*w, *n),
            NumericLiteral::Boolean(b) => NumericLiteralV::Boolean(*b),
        }
    }
}

/// A well-formed literal: a float's body text is valid.
pub open spec fn literal_wf(v: NumericLiteralV) -> bool {
    match v {
        NumericLiteralV::Float(_, t) => float_text_valid(t),
        _ => true,
    }
}

/// What decoding literal text yields: the signature selects the kind, the
/// body parses per that kind.
pub open spec fn decode_spec(s: Seq<char>) -> Result<NumericLiteralV, LiteralError> {
    match extract_spec(s) {
        Err(e) => Err(e),
        Ok((body, sv)) => match sv {
            ExtractSignatureAndVolumeResult::Signature(c) => {
                if c == 'u' {
                    match parse_u_spec(body) {
                        Ok(v) => Ok(NumericLiteralV::SysUint(v)),
                        Err(e) => Err(e),
                    }
                } else if c == 'i' {
                    match parse_i_spec(body) {
                        Ok(v) => Ok(NumericLiteralV::SysInt(v)),
                        Err(e) => Err(e),
                    }
                } else if c == 'b' {
                    Ok(NumericLiteralV::Boolean(body != seq!['0']))
                } else {
                    Err(LiteralError::InvalidBody)
                }
            },
            ExtractSignatureAndVolumeResult::SignatureAndVolume(c, w) => {
                if c == 'u' {
                    match parse_u_spec(body) {
                        Ok(v) => Ok(NumericLiteralV::Uint(w, v)),
                        Err(e) => Err(e),
                    }
                } else if c == 'i' {
                    match parse_i_spec(body) {
                        Ok(v) => Ok(NumericLiteralV::Int(w, v)),
                        Err(e) => Err(e),
                    }
                } else if c == 'f' {
                    match float_body_check(body) {
                        Ok(_) => Ok(NumericLiteralV::Float(w, body)),
                        Err(e) => Err(e),
                    }
                } else {
                    Err(LiteralError::InvalidBody)
                }
            },
        },
    }
}

impl NumericLiteral {
    /// Decodes numeric-literal token text into a typed value, or reports
    /// exactly why the text denotes none.
    pub fn decode(s: &str) -> (r: Result<NumericLiteral, LiteralError>)
        ensures
            r matches Ok(v) ==> decode_spec(s@) == Ok::<_, LiteralError>(v@) && literal_wf(v@),
            r matches Err(e) ==> decode_spec(s@) == Err::<NumericLiteralV, _>(e),
    {
        let cs = crate::text::str_to_chars(s);
        let (end, sv) = match extract_signature_and_volume_and_base(&cs) {
            Ok(x) => x,
            Err(e) => {
                return Err(e);
            },
        };
        match sv {
            ExtractSignatureAndVolumeResult::Signature(c) => {
                if c == 'u' {
                    match parse_u(&cs, 0, end) {
                        Ok(v) => Ok(NumericLiteral::SysUint(v)),
                        Err(e) => Err(e),
                    }
                } else if c == 'i' {
                    match parse_i(&cs, 0, end) {
                        Ok(v) => Ok(NumericLiteral::SysInt(v)),
                        Err(e) => Err(e),
                    }
                } else if c == 'b' {
                    let is_zero = end == 1 && cs[0] == '0';
                    proof {
                        let ghost body = cs@.subrange(0, end as int);
                        if is_zero {
                            assert(body =~= seq!['0']);
                        } else {
                            if body.len() == 1 && body[0] == '0' {
                                assert(cs@[0] == body[0]);
                                assert(false);
                            }
                            assert(body != seq!['0']);
                        }
                    }
                    Ok(NumericLiteral::Boolean(!is_zero))
                } else {
                    Err(LiteralError::InvalidBody)
                }
            },
            ExtractSignatureAndVolumeResult::SignatureAndVolume(c, w) => {
                if c == 'u' {
                    match parse_u(&cs, 0, end) {
                        Ok(v) => Ok(NumericLiteral::Uint(w, v)),
                        Err(e) => Err(e),
                    }
                } else if c == 'i' {
                    match parse_i(&cs, 0, end) {
                        Ok(v) => Ok(NumericLiteral::Int(w, v)),
                        Err(e) => Err(e),
                    }
                } else if c == 'f' {
                    match check_float_body(&cs, 0, end) {
                        Ok(_) => {
                            let text = crate::text::string_from_range(&cs, 0, end);
                            Ok(NumericLiteral::Float(w, text))
                        },
                        Err(e) => Err(e),
                    }
                } else {
                    Err(LiteralError::InvalidBody)
                }
            },
        }
    }
}

// ---------------------------------------------------------------------------
// Rendering: the canonical suffix-producing string form
// ---------------------------------------------------------------------------

pub open spec fn digit_char(d: int) -> char {
    if d == 0 {
        '0'
    } else if d == 1 {
        '1'
    } else if d == 2 {
        '2'
    } else if d == 3 {
        '3'
    } else if d == 4 {
        '4'
    } else if d == 5 {
        '5'
    } else if d == 6 {
        '6'
    } else if d == 7 {
        '7'
    } else if d == 8 {
        '8'
    } else {
        '9'
    }
}

/// The decimal digits of a nonnegative number, most significant first.
pub open spec fn dec_digits(n: int) -> Seq<char>
    decreases n,
{
    if n <= 9 {
        seq![digit_char(n)]
    } else {
        dec_digits(n / 10).push(digit_char(n % 10))
    }
}

/// The decimal digits of a number, sign included.
pub open spec fn dec_digits_i(n: int) -> Seq<char> {
    if n < 0 {
        seq!['-'] + dec_digits(-n)
    } else {
        dec_digits(n)
    }
}

pub proof fn lemma_dec_digits(n: int)
    requires
        n >= 0,
    ensures
        dec_digits(n).len() >= 1,
        all_digits(dec_digits(n)),
        digits_val(dec_digits(n)) == n,
    decreases n,
{
    if n <= 9 {
        let w = dec_digits(n);
        assert(w =~= seq![digit_char(n)]);
        assert(w.drop_last() =~= Seq::<char>::empty());
        assert(digits_val(Seq::<char>::empty()) == 0);
        assert(w.last() == digit_char(n));
        assert(digit_val(digit_char(n)) == n);
        assert(digits_val(w) == digits_val(w.drop_last()) * 10 + digit_val(w.last()));
    } else {
        lemma_dec_digits(n / 10);
        let p = dec_digits(n / 10);
        let w = p.push(digit_char(n % 10));
        assert(w.drop_last() =~= p);
        assert(digit_val(digit_char(n % 10)) == n % 10);
        assert(digits_val(w) == digits_val(p) * 10 + digit_val(digit_char(n % 10)));
        assert(all_digits(w)) by {
            assert(forall|j: int| 0 <= j < w.len() - 1 ==> w[j] == p[j]);
        }
    }
}

/// Digit characters are neither signature characters nor the scientific
/// separator nor a sign or point.
pub proof fn lemma_all_digits_plain(s: Seq<char>)
    requires
        all_digits(s),
    ensures
        forall|i: int|
            0 <= i < s.len() ==> !is_sig_char(#[trigger] s[i]) && s[i] != 'E' && s[i] != '-',
{
    assert forall|i: int| 0 <= i < s.len() implies !is_sig_char(#[trigger] s[i]) && s[i] != 'E'
        && s[i] != '-' by {
        assert(is_digit_char(s[i]));
    }
}

/// Scanning for a signature passes over characters that are none.
pub proof fn lemma_find_sig_skip(s: Seq<char>, i: int, k: int)
    requires
        0 <= i <= k <= s.len(),
        forall|j: int| i <= j < k ==> !is_sig_char(#[trigger] s[j]),
    ensures
        find_sig_from(s, i) == find_sig_from(s, k),
    decreases k - i,
{
    if i < k {
        lemma_find_sig_skip(s, i + 1, k);
    }
}

/// Scanning for a character passes over characters that differ from it.
pub proof fn lemma_find_char_skip(s: Seq<char>, i: int, k: int, c: char)
    requires
        0 <= i <= k <= s.len(),
        forall|j: int| i <= j < k ==> s[j] != c,
    ensures
        find_char_from(s, i, c) == find_char_from(s, k, c),
    decreases k - i,
{
    if i < k {
        lemma_find_char_skip(s, i + 1, k, c);
    }
}

fn digit_char_of(d: u64) -> (r: char)
    requires
        d <= 9,
    ensures
        r == digit_char(d as int),
{
    match d {
        0 => '0',
        1 => '1',
        2 => '2',
        3 => '3',
        4 => '4',
        5 => '5',
        6 => '6',
        7 => '7',
        8 => '8',
        _ => '9',
    }
}

/// Appends the decimal digits of `n` to `out`.
fn push_decimal_u64(out: &mut Vec<char>, n: u64)
    ensures
        final(out)@ == old(out)@ + dec_digits(n as int),
    decreases n,
{
    if n <= 9 {
        out.push(digit_char_of(n));
        proof {
            assert(out@ =~= old(out)@ + dec_digits(n as int));
        }
    } else {
        push_decimal_u64(out, n / 10);
        out.push(digit_char_of(n % 10));
        proof {
            assert(out@ =~= old(out)@ + dec_digits(n as int));
        }
    }
}

/// Appends the decimal digits of `n`, sign included, to `out`.
fn push_decimal_i64(out: &mut Vec<char>, n: i64)
    ensures
        final(out)@ == old(out)@ + dec_digits_i(n as int),
{
    if n < 0 {
        out.push('-');
        let mag: u64 = if n == i64::MIN {
            0x8000_0000_0000_0000u64
        } else {
            (-n) as u64
        };
        push_decimal_u64(out, mag);
        proof {
            assert(out@ =~= old(out)@ + dec_digits_i(n as int));
        }
    } else {
        push_decimal_u64(out, n as u64);
    }
}

/// What rendering produces for each literal kind: the value's decimal or
/// body text, then the signature character, then the explicit width.
pub open spec fn render_spec(v: NumericLiteralV) -> Seq<char> {
    match v {
        NumericLiteralV::Float(w, t) => t + seq!['f'] + dec_digits(w as int),
        NumericLiteralV::SysUint(n) => dec_digits(n as int) + seq!['u'],
        NumericLiteralV::SysInt(n) => dec_digits_i(n as int) + seq!['i'],
        NumericLiteralV::Uint(w, n) => dec_digits(n as int) + seq!['u'] + dec_digits(w as int),
        NumericLiteralV::Int(w, n) => dec_digits_i(n as int) + seq!['i'] + dec_digits(w as int),
        NumericLiteralV::Boolean(b) => if b {
            seq!['1', 'b']
        } else {
            seq!['0', 'b']
        },
    }
}

impl NumericLiteral {
    /// Renders the literal in its canonical suffix-producing string form.
    pub fn render(&self) -> (r: String)
        ensures
            r@ == render_spec(self@),
    {
        let mut out: Vec<char> = Vec::new();
        match self {
            NumericLiteral::Float(w, t) => {
                out = crate::text::str_to_chars(t.as_str());
                out.push('f');
                push_decimal_u64(&mut out, *w as u64);
                proof {
                    assert(out@ =~= render_spec(self@));
                }
            },
            NumericLiteral::SysUint(n) => {
                push_decimal_u64(&mut out, *n);
                out.push('u');
                proof {
                    assert(out@ =~= render_spec(self@));
                }
            },
            NumericLiteral::SysInt(n) => {
                push_decimal_i64(&mut out, *n);
                out.push('i');
                proof {
                    assert(out@ =~= render_spec(self@));
                }
            },
            NumericLiteral::Uint(w, n) => {
                push_decimal_u64(&mut out, *n);
                out.push('u');
                push_decimal_u64(&mut out, *w as u64);
                proof {
                    assert(out@ =~= render_spec(self@));
                }
            },
            NumericLiteral::Int(w, n) => {
                push_decimal_i64(&mut out, *n);
                out.push('i');
                push_decimal_u64(&mut out, *w as u64);
                proof {
                    assert(out@ =~= render_spec(self@));
                }
            },
            NumericLiteral::Boolean(b) => {
                out.push(if *b {
                    '1'
                } else {
                    '0'
                });
                out.push('b');
                proof {
                    assert(out@ =~= render_spec(self@));
                }
            },
        }
        crate::text::chars_to_string(&out)
    }
}

// ---------------------------------------------------------------------------
// The round-trip law
// ---------------------------------------------------------------------------

/// Valid floating-point body text holds no signature characters.
proof fn lemma_float_text_no_sig(t: Seq<char>)
    requires
        float_text_valid(t),
    ensures
        forall|i: int| 0 <= i < t.len() ==> !is_sig_char(#[trigger] t[i]),
{
    let k = find_char_from(t, 0, 'E');
    lemma_find_char_from(t, 0, 'E');
    if k == t.len() {
        assert(mantissa_valid(t));
        assert forall|i: int| 0 <= i < t.len() implies !is_sig_char(#[trigger] t[i]) by {
            lemma_mantissa_char(t, i);
        }
    } else {
        let m = t.subrange(0, k);
        let e = t.subrange(k + 1, t.len() as int);
        assert(mantissa_valid(m));
        assert(i64_text_valid(e));
        assert forall|i: int| 0 <= i < t.len() implies !is_sig_char(#[trigger] t[i]) by {
            if i < k {
                assert(t[i] == m[i]);
                lemma_mantissa_char(m, i);
            } else if i == k {
                assert(t[i] == 'E');
            } else {
                assert(t[i] == e[i - k - 1]);
                lemma_signed_digit_char(e, i - k - 1);
            }
        }
    }
}

/// Each character of valid mantissa text is a sign, digit or point.
proof fn lemma_mantissa_char(m: Seq<char>, i: int)
    requires
        mantissa_valid(m),
        0 <= i < m.len(),
    ensures
        !is_sig_char(m[i]),
{
    if m.len() > 0 && m[0] == '-' {
        if i > 0 {
            let d = m.subrange(1, m.len() as int);
            assert(m[i] == d[i - 1]);
            assert(is_digit_char(d[i - 1]) || d[i - 1] == '.');
        }
    } else {
        assert(is_digit_char(m[i]) || m[i] == '.');
    }
}

/// Each character of valid signed-integer text is a sign or digit.
proof fn lemma_signed_digit_char(e: Seq<char>, i: int)
    requires
        i64_text_valid(e),
        0 <= i < e.len(),
    ensures
        !is_sig_char(e[i]),
{
    if e.len() > 0 && e[0] == '-' {
        if i > 0 {
            let d = e.subrange(1, e.len() as int);
            assert(e[i] == d[i - 1]);
            assert(is_digit_char(d[i - 1]));
        }
    } else {
        assert(is_digit_char(e[i]));
    }
}

/// Decoding an unsigned decimal digit string gives its value back.
proof fn lemma_parse_u_digits(n: int)
    requires
        0 <= n <= u64::MAX,
    ensures
        parse_u_spec(dec_digits(n)) == Ok::<u64, LiteralError>(n as u64),
{
    let d = dec_digits(n);
    lemma_dec_digits(n);
    lemma_all_digits_plain(d);
    lemma_find_char_skip(d, 0, d.len() as int, 'E');
}

/// Decoding a signed decimal digit string gives its value back.
proof fn lemma_parse_i_digits(n: int)
    requires
        i64::MIN <= n <= i64::MAX,
    ensures
        parse_i_spec(dec_digits_i(n)) == Ok::<i64, LiteralError>(n as i64),
{
    let d = dec_digits_i(n);
    if n < 0 {
        let mag = dec_digits(-n);
        lemma_dec_digits(-n);
        lemma_all_digits_plain(mag);
        assert(d[0] == '-');
        assert(forall|j: int| 1 <= j < d.len() ==> d[j] == mag[j - 1]);
        assert forall|j: int| 0 <= j < d.len() implies d[j] != 'E' by {
            if j > 0 {
                assert(d[j] == mag[j - 1]);
            }
        }
        lemma_find_char_skip(d, 0, d.len() as int, 'E');
        assert(d.subrange(1, d.len() as int) =~= mag);
        assert(i64_text_valid(d));
        assert(i64_text_val(d) == n);
    } else {
        lemma_dec_digits(n);
        lemma_all_digits_plain(d);
        lemma_find_char_skip(d, 0, d.len() as int, 'E');
        assert(i64_text_valid(d));
        assert(i64_text_val(d) == n);
    }
}

/// The round-trip law: decoding the canonical rendering of any
/// well-formed literal value yields that value again.
pub proof fn lemma_decode_render_roundtrip(v: NumericLiteralV)
    requires
        literal_wf(v),
    ensures
        decode_spec(render_spec(v)) == Ok::<NumericLiteralV, LiteralError>(v),
{
    let r = render_spec(v);
    match v {
        NumericLiteralV::SysUint(n) => {
            let d = dec_digits(n as int);
            lemma_dec_digits(n as int);
            lemma_all_digits_plain(d);
            assert(forall|j: int| 0 <= j < d.len() ==> r[j] == d[j]);
            assert forall|j: int| 0 <= j < d.len() implies !is_sig_char(#[trigger] r[j]) by {
                assert(r[j] == d[j]);
            }
            lemma_find_sig_skip(r, 0, d.len() as int);
            assert(r[d.len() as int] == 'u');
            assert(find_sig_from(r, d.len() as int) == d.len());
            assert(r.subrange(0, d.len() as int) =~= d);
            assert(r.subrange(d.len() as int + 1, r.len() as int) =~= Seq::<char>::empty());
            lemma_parse_u_digits(n as int);
        },
        NumericLiteralV::SysInt(n) => {
            let d = dec_digits_i(n as int);
            lemma_dec_digits_i_plain(n as int);
            assert(forall|j: int| 0 <= j < d.len() ==> r[j] == d[j]);
            assert forall|j: int| 0 <= j < d.len() implies !is_sig_char(#[trigger] r[j]) by {
                assert(r[j] == d[j]);
            }
            lemma_find_sig_skip(r, 0, d.len() as int);
            assert(r[d.len() as int] == 'i');
            assert(find_sig_from(r, d.len() as int) == d.len());
            assert(r.subrange(0, d.len() as int) =~= d);
            assert(r.subrange(d.len() as int + 1, r.len() as int) =~= Seq::<char>::empty());
            lemma_parse_i_digits(n as int);
        },
        NumericLiteralV::Uint(w, n) => {
            let d = dec_digits(n as int);
            let wd = dec_digits(w as int);
            lemma_dec_digits(n as int);
            lemma_dec_digits(w as int);
            lemma_all_digits_plain(d);
            assert(forall|j: int| 0 <= j < d.len() ==> r[j] == d[j]);
            assert forall|j: int| 0 <= j < d.len() implies !is_sig_char(#[trigger] r[j]) by {
                assert(r[j] == d[j]);
            }
            lemma_find_sig_skip(r, 0, d.len() as int);
            assert(r[d.len() as int] == 'u');
            assert(find_sig_from(r, d.len() as int) == d.len());
            assert(r.subrange(0, d.len() as int) =~= d);
            assert(r.subrange(d.len() as int + 1, r.len() as int) =~= wd);
            lemma_parse_u_digits(n as int);
        },
        NumericLiteralV::Int(w, n) => {
            let d = dec_digits_i(n as int);
            let wd = dec_digits(w as int);
            lemma_dec_digits_i_plain(n as int);
            lemma_dec_digits(w as int);
            assert(forall|j: int| 0 <= j < d.len() ==> r[j] == d[j]);
            assert forall|j: int| 0 <= j < d.len() implies !is_sig_char(#[trigger] r[j]) by {
                assert(r[j] == d[j]);
            }
            lemma_find_sig_skip(r, 0, d.len() as int);
            assert(r[d.len() as int] == 'i');
            assert(find_sig_from(r, d.len() as int) == d.len());
            assert(r.subrange(0, d.len() as int) =~= d);
            assert(r.subrange(d.len() as int + 1, r.len() as int) =~= wd);
            lemma_parse_i_digits(n as int);
        },
        NumericLiteralV::Boolean(b) => {
            assert(!is_sig_char(r[0]));
            lemma_find_sig_skip(r, 0, 1);
            assert(r[1] == 'b');
            assert(find_sig_from(r, 1) == 1);
            if b {
                assert(r.subrange(0, 1) =~= seq!['1']);
                assert(seq!['1'] != seq!['0']) by {
                    assert(seq!['1'][0] != seq!['0'][0]);
                }
            } else {
                assert(r.subrange(0, 1) =~= seq!['0']);
            }
        },
        NumericLiteralV::Float(w, t) => {
            let wd = dec_digits(w as int);
            lemma_dec_digits(w as int);
            lemma_float_text_no_sig(t);
            assert(forall|j: int| 0 <= j < t.len() ==> r[j] == t[j]);
            assert forall|j: int| 0 <= j < t.len() implies !is_sig_char(#[trigger] r[j]) by {
                assert(r[j] == t[j]);
            }
            lemma_find_sig_skip(r, 0, t.len() as int);
            assert(r[t.len() as int] == 'f');
            assert(find_sig_from(r, t.len() as int) == t.len());
            assert(r.subrange(0, t.len() as int) =~= t);
            assert(r.subrange(t.len() as int + 1, r.len() as int) =~= wd);
            assert(wd.len() > 0);
            assert(u8_text_valid(wd));
        },
    }
}

/// Sign-and-digit strings hold no signature characters and no separator.
proof fn lemma_dec_digits_i_plain(n: int)
    requires
        i64::MIN <= n <= i64::MAX,
    ensures
        dec_digits_i(n).len() >= 1,
        forall|i: int|
            0 <= i < dec_digits_i(n).len() ==> !is_sig_char(#[trigger] dec_digits_i(n)[i]),
{
    let d = dec_digits_i(n);
    if n < 0 {
        let mag = dec_digits(-n);
        lemma_dec_digits(-n);
        lemma_all_digits_plain(mag);
        assert forall|i: int| 0 <= i < d.len() implies !is_sig_char(#[trigger] d[i]) by {
            if i > 0 {
                assert(d[i] == mag[i - 1]);
            } else {
                assert(d[i] == '-');
            }
        }
    } else {
        lemma_dec_digits(n);
        lemma_all_digits_plain(d);
    }
}

} // verus!
