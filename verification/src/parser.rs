//! A cursor-based decoder for the wire format: one pass over a byte buffer,
//! consuming one self-describing unit per call and reporting the byte offset
//! of the first malformed data on failure.
//!
//! The decoder's meaning is given by the spec-level parser
//! ([`spec_parse_value`] and friends); the executable parser is proved to
//! agree with it exactly, on success and on failure.

use vstd::prelude::*;
use vstd::utf8::{valid_utf8, decode_utf8, encode_utf8};
use crate::value::{Value, ValueModel, models_of, lemma_models_of_push, lemma_slice_len_bound};

verus! {

broadcast use vstd::seq::group_seq_axioms, vstd::std_specs::vec::group_vec_axioms, vstd::slice::group_slice_axioms;

/// What went wrong while decoding one unit.
#[derive(PartialEq, Eq, Debug, Clone, Copy)]
pub enum DecodeKind {
    /// The cursor was already exhausted where a unit was expected.
    EmptyInput,
    /// The first undecoded byte is not one of the five type markers.
    UnknownMarker,
    /// A required separator or CR-LF terminator is missing.
    MissingTerminator,
    /// The digit span of an integer unit does not parse as a 32-bit integer.
    BadInteger,
    /// The count of an array header does not parse as an unsigned length.
    BadArrayLength,
    /// A string payload is not valid UTF-8.
    BadUtf8,
}

/// A structural decode failure, located at a byte offset into the original
/// input buffer (`offset <= input.len()`; the length itself marks "at end").
#[derive(PartialEq, Eq, Debug, Clone, Copy)]
pub struct DecodeError {
    pub kind: DecodeKind,
    pub offset: usize,
}

// ---------------------------------------------------------------------------
// Searching for a byte
// ---------------------------------------------------------------------------

/// Index of the first occurrence of `target` at or after `from`, if any.
pub open spec fn find_byte(input: Seq<u8>, from: int, target: u8) -> Option<int>
    decreases input.len() - from,
{
    if from < 0 || from >= input.len() {
        None
    } else if input[from] == target {
        Some(from)
    } else {
        find_byte(input, from + 1, target)
    }
}

/// `find_byte` returns exactly the first occurrence at or after `from`.
pub proof fn lemma_find_byte(input: Seq<u8>, from: int, target: u8)
    requires
        0 <= from,
    ensures
        match find_byte(input, from, target) {
            Some(k) => from <= k < input.len() && input[k] == target && (forall|j: int|
                from <= j < k ==> input[j] != target),
            None => forall|j: int| from <= j < input.len() ==> input[j] != target,
        },
    decreases input.len() - from,
{
    if from < 0 || from >= input.len() {
    } else if input[from] == target {
    } else {
        lemma_find_byte(input, from + 1, target);
    }
}

/// Executable search for the first occurrence of a byte.
fn find_byte_from(input: &[u8], from: usize, target: u8) -> (r: Option<usize>)
    requires
        from <= input@.len(),
    ensures
        match r {
            Some(k) => find_byte(input@, from as int, target) == Some(k as int)
                && from <= k < input@.len() && input@[k as int] == target,
            None => find_byte(input@, from as int, target) is None,
        },
{
    let mut i: usize = from;
    while i < input.len()
        invariant
            from <= i <= input@.len(),
            forall|j: int| from <= j < i ==> input@[j] != target,
        decreases input@.len() - i,
    {
        if input[i] == target {
            proof {
                lemma_find_byte(input@, from as int, target);
            }
            return Some(i);
        }
        i = i + 1;
    }
    proof {
        lemma_find_byte(input@, from as int, target);
    }
    None
}

// ---------------------------------------------------------------------------
// Decimal digit spans
// ---------------------------------------------------------------------------

/// True for the bytes of the ten decimal digits.
pub open spec fn is_digit_byte(b: u8) -> bool {
    48 <= b <= 57
}

/// Every byte of the span is a decimal digit.
pub open spec fn all_digits(s: Seq<u8>) -> bool {
    forall|i: int| 0 <= i < s.len() ==> is_digit_byte(#[trigger] s[i])
}

/// The number denoted by a span of decimal digit bytes, most significant
/// digit first.
pub open spec fn digits_val(s: Seq<u8>) -> int
    decreases s.len(),
{
    if s.len() == 0 {
        0
    } else {
        digits_val(s.drop_last()) * 10 + (s.last() - 48)
    }
}

/// What `parse` of an unsigned integer accepts on a digit-only span: at least
/// one digit, nothing but digits.
pub open spec fn spec_parse_unsigned(s: Seq<u8>) -> Option<int> {
    if s.len() > 0 && all_digits(s) {
        Some(digits_val(s))
    } else {
        None
    }
}

/// What `str::parse::<i32>` accepts, as an unbounded integer: an optional
/// leading sign, then at least one digit, with the value within `i32` range.
pub open spec fn spec_parse_i32(s: Seq<u8>) -> Option<int> {
    let v = if s.len() > 0 && (s[0] == 43 || s[0] == 45) {
        match spec_parse_unsigned(s.subrange(1, s.len() as int)) {
            Some(u) => if s[0] == 45 {
                Some(-u)
            } else {
                Some(u)
            },
            None => None,
        }
    } else {
        spec_parse_unsigned(s)
    };
    match v {
        Some(u) => if -2147483648 <= u <= 2147483647 {
            Some(u)
        } else {
            None
        },
        None => None,
    }
}

/// What `str::parse::<usize>` accepts: an optional leading plus sign, then at
/// least one digit, with the value within `usize` range.
pub open spec fn spec_parse_usize(s: Seq<u8>) -> Option<int> {
    let t = if s.len() > 0 && s[0] == 43 {
        s.subrange(1, s.len() as int)
    } else {
        s
    };
    match spec_parse_unsigned(t) {
        Some(u) => if u <= usize::MAX as int {
            Some(u)
        } else {
            None
        },
        None => None,
    }
}

/// A digit-only span denotes a non-negative number.
pub proof fn lemma_digits_val_nonneg(s: Seq<u8>)
    requires
        all_digits(s),
    ensures
        digits_val(s) >= 0,
    decreases s.len(),
{
    if s.len() > 0 {
        assert(all_digits(s.drop_last()));
        lemma_digits_val_nonneg(s.drop_last());
    }
}

/// Dropping trailing digits can only shrink the denoted number.
pub proof fn lemma_digits_val_prefix(s: Seq<u8>, n: int)
    requires
        all_digits(s),
        0 <= n <= s.len(),
    ensures
        digits_val(s.subrange(0, n)) <= digits_val(s),
    decreases s.len(),
{
    if n == s.len() {
        assert(s.subrange(0, n) =~= s);
    } else {
        let t = s.drop_last();
        assert(all_digits(t));
        assert(s.subrange(0, n) =~= t.subrange(0, n));
        lemma_digits_val_prefix(t, n);
        lemma_digits_val_nonneg(t);
    }
}

/// Executable parse of a digit-only span, bounded by `cap`.
fn parse_digits_span(input: &[u8], from: usize, to: usize, cap: u128) -> (r: Option<u128>)
    requires
        from <= to <= input@.len(),
        cap <= 0xffff_ffff_ffff_ffff,
    ensures
        ({
            let s = input@.subrange(from as int, to as int);
            match r {
                Some(v) => spec_parse_unsigned(s) == Some(v as int) && v <= cap,
                None => spec_parse_unsigned(s) is None || (spec_parse_unsigned(s) matches Some(u)
                    && u > cap),
            }
        }),
{
    let ghost s = input@.subrange(from as int, to as int);
    if from == to {
        return None;
    }
    let mut acc: u128 = 0;
    let mut i: usize = from;
    while i < to
        invariant
            from <= i <= to <= input@.len(),
            cap <= 0xffff_ffff_ffff_ffff,
            s == input@.subrange(from as int, to as int),
            all_digits(input@.subrange(from as int, i as int)),
            acc == digits_val(input@.subrange(from as int, i as int)),
            acc <= cap,
        decreases to - i,
    {
        let b = input[i];
        if b < 48 || b > 57 {
            proof {
                assert(s[i - from] == input@[i as int]);
            }
            return None;
        }
        proof {
            let pre = input@.subrange(from as int, i as int);
            let pre2 = input@.subrange(from as int, i as int + 1);
            assert(pre2.drop_last() =~= pre);
            assert(pre2.last() == input@[i as int]);
        }
        acc = acc * 10 + ((b - 48) as u128);
        if acc > cap {
            proof {
                if all_digits(s) {
                    assert(s.subrange(0, i + 1 - from) =~= input@.subrange(
                        from as int,
                        i as int + 1,
                    ));
                    lemma_digits_val_prefix(s, i + 1 - from);
                } else {
                    assert(spec_parse_unsigned(s) is None);
                }
            }
            return None;
        }
        i = i + 1;
    }
    proof {
        assert(input@.subrange(from as int, i as int) =~= s);
    }
    Some(acc)
}

/// Executable twin of [`spec_parse_i32`] on a span of the input.
fn parse_i32_span(input: &[u8], from: usize, to: usize) -> (r: Option<i32>)
    requires
        from <= to <= input@.len(),
    ensures
        ({
            let s = input@.subrange(from as int, to as int);
            match r {
                Some(v) => spec_parse_i32(s) == Some(v as int),
                None => spec_parse_i32(s) is None,
            }
        }),
{
    let ghost s = input@.subrange(from as int, to as int);
    if from == to {
        return None;
    }
    let b0 = input[from];
    let neg = b0 == 45;
    let signed = b0 == 43 || b0 == 45;
    let dfrom = if signed {
        from + 1
    } else {
        from
    };
    let cap: u128 = if neg {
        2147483648
    } else {
        2147483647
    };
    proof {
        if signed {
            assert(s.subrange(1, s.len() as int) =~= input@.subrange(dfrom as int, to as int));
        } else {
            assert(s =~= input@.subrange(dfrom as int, to as int));
        }
    }
    match parse_digits_span(input, dfrom, to, cap) {
        None => None,
        Some(v) => {
            if neg {
                Some((-(v as i64)) as i32)
            } else {
                Some(v as i32)
            }
        },
    }
}

/// Executable twin of [`spec_parse_usize`] on a span of the input.
fn parse_usize_span(input: &[u8], from: usize, to: usize) -> (r: Option<usize>)
    requires
        from <= to <= input@.len(),
    ensures
        ({
            let s = input@.subrange(from as int, to as int);
            match r {
                Some(v) => spec_parse_usize(s) == Some(v as int),
                None => spec_parse_usize(s) is None,
            }
        }),
{
    let ghost s = input@.subrange(from as int, to as int);
    if from == to {
        return None;
    }
    let b0 = input[from];
    let dfrom = if b0 == 43 {
        from + 1
    } else {
        from
    };
    proof {
        if b0 == 43 {
            assert(s.subrange(1, s.len() as int) =~= input@.subrange(dfrom as int, to as int));
        } else {
            assert(s =~= input@.subrange(dfrom as int, to as int));
        }
    }
    match parse_digits_span(input, dfrom, to, usize::MAX as u128) {
        None => None,
        Some(v) => Some(v as usize),
    }
}

// ---------------------------------------------------------------------------
// The spec-level parser
// ---------------------------------------------------------------------------
//
// One unit is decoded from position `pos`; the result is its model and the
// position just past the bytes consumed, or the kind and byte offset of the
// first malformed data.

/// Decode one unit at `pos`, dispatching on the one-byte type marker.
pub open spec fn spec_parse_value(input: Seq<u8>, pos: int) -> Result<
    (ValueModel, int),
    (DecodeKind, int),
>
    decreases input.len() - pos, 1int, 0int,
{
    if pos < 0 || pos >= input.len() {
        Err((DecodeKind::EmptyInput, pos))
    } else {
        let m = input[pos];
        if m == 58 {  // ':'
            match spec_parse_int(input, pos) {
                Ok((v, p)) => Ok((ValueModel::VInt(v), p)),
                Err(e) => Err(e),
            }
        } else if m == 36 {  // '$'
            match spec_parse_string(input, pos, 10) {
                Ok((t, p)) => Ok((ValueModel::VStr(t), p)),
                Err(e) => Err(e),
            }
        } else if m == 43 {  // '+'
            match spec_parse_string(input, pos, 43) {
                Ok((t, p)) => Ok((ValueModel::VStr(t), p)),
                Err(e) => Err(e),
            }
        } else if m == 45 {  // '-'
            match spec_parse_string(input, pos, 45) {
                Ok((t, p)) => Ok((ValueModel::VErr(t), p)),
                Err(e) => Err(e),
            }
        } else if m == 42 {  // '*'
            match spec_parse_array(input, pos) {
                Ok((ms, p)) => Ok((ValueModel::VArr(ms), p)),
                Err(e) => Err(e),
            }
        } else {
            Err((DecodeKind::UnknownMarker, pos))
        }
    }
}

/// Decode an integer unit: the span up to the first LF must hold an optional
/// sign and then digits that parse as a 32-bit integer, ending in CR.
pub open spec fn spec_parse_int(input: Seq<u8>, pos: int) -> Result<(int, int), (DecodeKind, int)> {
    match find_byte(input, pos, 10) {
        None => Err((DecodeKind::MissingTerminator, pos)),
        Some(e) => {
            if e < pos + 2 {
                Err((DecodeKind::BadInteger, pos + 1))
            } else {
                let c1 = input[pos + 1];
                let off: int = if c1 == 43 || c1 == 45 {
                    1
                } else {
                    0
                };
                let sgn: int = if c1 == 45 {
                    -1
                } else {
                    1
                };
                match find_byte(input, pos, 13) {
                    None => Err((DecodeKind::BadInteger, pos + 1 + off)),
                    Some(r) => {
                        if r >= e || pos + 1 + off > r {
                            Err((DecodeKind::BadInteger, pos + 1 + off))
                        } else {
                            match spec_parse_i32(input.subrange(pos + 1 + off, r)) {
                                None => Err((DecodeKind::BadInteger, pos + 1 + off)),
                                Some(v) => {
                                    if -2147483648 <= sgn * v <= 2147483647 {
                                        Ok((sgn * v, e + 1))
                                    } else {
                                        Err((DecodeKind::BadInteger, pos + 1 + off))
                                    }
                                },
                            }
                        }
                    },
                }
            }
        },
    }
}

/// Decode a string-like unit: find the separator byte (the LF after the
/// length for the bulk form; the marker itself for the simple and error
/// forms), then take the bytes strictly before the next CR as the payload,
/// which must be valid UTF-8.
pub open spec fn spec_parse_string(input: Seq<u8>, pos: int, sep: u8) -> Result<
    (Seq<char>, int),
    (DecodeKind, int),
> {
    match find_byte(input, pos, sep) {
        None => Err((DecodeKind::MissingTerminator, pos)),
        Some(e1) => match find_byte(input, e1 + 1, 13) {
            None => Err((DecodeKind::MissingTerminator, e1 + 1)),
            Some(e2) => {
                let payload = input.subrange(e1 + 1, e2);
                if !valid_utf8(payload) {
                    Err((DecodeKind::BadUtf8, e1 + 1))
                } else if e2 + 2 > input.len() {
                    Err((DecodeKind::MissingTerminator, e2 + 1))
                } else {
                    Ok((decode_utf8(payload), e2 + 2))
                }
            },
        },
    }
}

/// Decode an array unit: an unsigned count up to CR-LF, then exactly that
/// many units in sequence.
pub open spec fn spec_parse_array(input: Seq<u8>, pos: int) -> Result<
    (Seq<ValueModel>, int),
    (DecodeKind, int),
>
    decreases input.len() - pos, 0int, 0int,
{
    match find_byte(input, pos, 13) {
        None => Err((DecodeKind::MissingTerminator, pos)),
        Some(e) => {
            if e < pos + 1 {
                Err((DecodeKind::BadArrayLength, pos + 1))
            } else {
                match spec_parse_usize(input.subrange(pos + 1, e)) {
                    None => Err((DecodeKind::BadArrayLength, pos + 1)),
                    Some(n) => {
                        if e + 2 > input.len() {
                            Err((DecodeKind::MissingTerminator, e + 1))
                        } else {
                            spec_parse_elems(input, e + 2, n)
                        }
                    },
                }
            }
        },
    }
}

/// Decode exactly `n` units in sequence, yielding their models in order and
/// the position after the last; the first failure is propagated unchanged.
pub open spec fn spec_parse_elems(input: Seq<u8>, pos: int, n: int) -> Result<
    (Seq<ValueModel>, int),
    (DecodeKind, int),
>
    decreases input.len() - pos, 2int, n,
{
    if n <= 0 {
        Ok((Seq::empty(), pos))
    } else {
        match spec_parse_value(input, pos) {
            Err(e) => Err(e),
            Ok((m, p2)) => {
                if p2 <= pos || p2 > input.len() {
                    // cannot happen: a decoded unit consumes at least one byte
                    Err((DecodeKind::EmptyInput, pos))
                } else {
                    match spec_parse_elems(input, p2, n - 1) {
                        Err(e) => Err(e),
                        Ok((ms, p3)) => Ok((seq![m] + ms, p3)),
                    }
                }
            },
        }
    }
}

/// A successfully decoded unit consumes at least one byte and never reads
/// past the end of the input; a failed one is located within the input.
pub proof fn lemma_parse_value_bounds(input: Seq<u8>, pos: int)
    requires
        0 <= pos <= input.len(),
    ensures
        match spec_parse_value(input, pos) {
            Ok((m, p)) => pos < p <= input.len(),
            Err((k, off)) => 0 <= off <= input.len(),
        },
    decreases input.len() - pos, 1int, 0int,
{
    if 0 <= pos < input.len() {
        let m = input[pos];
        lemma_find_byte(input, pos, 10);
        lemma_find_byte(input, pos, 13);
        if m == 36 || m == 43 || m == 45 {
            let sep: u8 = if m == 36 {
                10
            } else {
                m
            };
            lemma_find_byte(input, pos, sep);
            if let Some(e1) = find_byte(input, pos, sep) {
                lemma_find_byte(input, e1 + 1, 13);
            }
        }
        if m == 42 {
            if let Some(e) = find_byte(input, pos, 13) {
                if e >= pos + 1 {
                    if let Some(n) = spec_parse_usize(input.subrange(pos + 1, e)) {
                        if e + 2 <= input.len() {
                            lemma_parse_elems_bounds(input, e + 2, n);
                        }
                    }
                }
            }
        }
    }
}

/// Bounds for a sequence of decoded units: the cursor only moves forward and
/// stays within the input, and exactly `n` models come back on success.
pub proof fn lemma_parse_elems_bounds(input: Seq<u8>, pos: int, n: int)
    requires
        0 <= pos <= input.len(),
    ensures
        match spec_parse_elems(input, pos, n) {
            Ok((ms, p)) => pos <= p <= input.len() && ms.len() == (if n <= 0 {
                0
            } else {
                n
            }),
            Err((k, off)) => 0 <= off <= input.len(),
        },
    decreases input.len() - pos, 2int, n,
{
    if n <= 0 {
    } else {
        lemma_parse_value_bounds(input, pos);
        match spec_parse_value(input, pos) {
            Err(e) => {},
            Ok((m, p2)) => {
                if pos < p2 <= input.len() {
                    lemma_parse_elems_bounds(input, p2, n - 1);
                }
            },
        }
    }
}

/// Decoding `k + j` units in sequence is decoding `k`, then `j` more from
/// where the first `k` ended.
pub proof fn lemma_parse_elems_split(input: Seq<u8>, pos: int, k: int, j: int)
    requires
        0 <= k,
        0 <= j,
    ensures
        spec_parse_elems(input, pos, k + j) == match spec_parse_elems(input, pos, k) {
            Err(e) => Err::<(Seq<ValueModel>, int), (DecodeKind, int)>(e),
            Ok((ms, p)) => match spec_parse_elems(input, p, j) {
                Err(e) => Err(e),
                Ok((ms2, p2)) => Ok((ms + ms2, p2)),
            },
        },
    decreases k,
{
    if k == 0 {
        match spec_parse_elems(input, pos, j) {
            Err(e) => {},
            Ok((ms2, p2)) => {
                assert(Seq::<ValueModel>::empty() + ms2 =~= ms2);
            },
        }
    } else {
        match spec_parse_value(input, pos) {
            Err(e) => {},
            Ok((m, p2)) => {
                if p2 <= pos || p2 > input.len() {
                } else {
                    lemma_parse_elems_split(input, p2, k - 1, j);
                    match spec_parse_elems(input, p2, k - 1) {
                        Err(e) => {},
                        Ok((ms, p3)) => {
                            match spec_parse_elems(input, p3, j) {
                                Err(e) => {},
                                Ok((ms2, p4)) => {
                                    assert(seq![m] + (ms + ms2) =~= (seq![m] + ms) + ms2);
                                },
                            }
                        },
                    }
                }
            },
        }
    }
}

// ---------------------------------------------------------------------------
// The executable parser
// ---------------------------------------------------------------------------

/// Relies on `String::from_utf8`: it succeeds exactly on valid UTF-8 input,
/// and the resulting string holds that input's UTF-8 decoding (equivalently,
/// its bytes are exactly the input).
#[verifier::external_body]
fn bytes_to_string(bytes: Vec<u8>) -> (r: Option<String>)
    ensures
        r is Some <==> valid_utf8(bytes@),
        r matches Some(s) ==> s@ == decode_utf8(bytes@) && encode_utf8(s@) == bytes@,
{
    String::from_utf8(bytes).ok()
}

/// A cursor over one input buffer: `full` is the original input, fixed, and
/// `pos` the index of the first unconsumed byte, advanced monotonically as
/// units are decoded.
pub struct RedisParser<'a> {
    full: &'a [u8],
    pos: usize,
}

impl<'a> RedisParser<'a> {
    /// The original input buffer.
    pub closed spec fn input(&self) -> Seq<u8> {
        self.full@
    }

    /// The index of the first unconsumed byte.
    pub closed spec fn position(&self) -> int {
        self.pos as int
    }

    /// The cursor never runs past the end of the input.
    pub closed spec fn wf(&self) -> bool {
        self.pos <= self.full@.len()
    }

    /// A fresh cursor over `input`, with nothing consumed yet.
    pub fn new(input: &'a [u8]) -> (r: Self)
        ensures
            r.wf(),
            r.input() == input@,
            r.position() == 0,
    {
        RedisParser { full: input, pos: 0 }
    }

    /// Decode one integer unit, advancing the cursor past it.
    fn parse_int(&mut self) -> (r: Result<i32, DecodeError>)
        requires
            old(self).wf(),
        ensures
            final(self).wf(),
            final(self).input() == old(self).input(),
            old(self).position() <= final(self).position(),
            match r {
                Ok(v) => spec_parse_int(final(self).input(), old(self).position()) == Ok::<
                    (int, int),
                    (DecodeKind, int),
                >((v as int, final(self).position())),
                Err(e) => spec_parse_int(final(self).input(), old(self).position()) == Err::<
                    (int, int),
                    (DecodeKind, int),
                >((e.kind, e.offset as int)) && final(self).position() == old(self).position(),
            },
    {
        proof {
            lemma_slice_len_bound(self.full);
        }
        let start = self.pos;
        let e = match find_byte_from(self.full, start, 10) {
            None => {
                return Err(DecodeError { kind: DecodeKind::MissingTerminator, offset: start });
            },
            Some(x) => x,
        };
        if e - start < 2 {
            return Err(DecodeError { kind: DecodeKind::BadInteger, offset: start + 1 });
        }
        let c1 = self.full[start + 1];
        let off: usize = if c1 == 43 || c1 == 45 {
            1
        } else {
            0
        };
        let neg = c1 == 45;
        let rr = match find_byte_from(self.full, start, 13) {
            None => {
                return Err(DecodeError { kind: DecodeKind::BadInteger, offset: start + 1 + off });
            },
            Some(x) => x,
        };
        if rr >= e || start + 1 + off > rr {
            return Err(DecodeError { kind: DecodeKind::BadInteger, offset: start + 1 + off });
        }
        let v = match parse_i32_span(self.full, start + 1 + off, rr) {
            None => {
                return Err(DecodeError { kind: DecodeKind::BadInteger, offset: start + 1 + off });
            },
            Some(x) => x,
        };
        let sv: i64 = if neg {
            -(v as i64)
        } else {
            v as i64
        };
        proof {
            let input = self.full@;
            let pos = start as int;
            assert(find_byte(input, pos, 10) == Some(e as int));
            assert((e as int) >= pos + 2);
            assert(input[pos + 1] == c1);
            assert(find_byte(input, pos, 13) == Some(rr as int));
            assert(spec_parse_i32(input.subrange(pos + 1 + off as int, rr as int)) == Some(
                v as int,
            ));
            if c1 == 45 {
                assert(sv as int == -1 * (v as int));
            } else {
                assert(sv as int == 1 * (v as int));
            }
        }
        if sv < -2147483648i64 || sv > 2147483647i64 {
            return Err(DecodeError { kind: DecodeKind::BadInteger, offset: start + 1 + off });
        }
        self.pos = e + 1;
        Ok(sv as i32)
    }

    /// Decode one string-like unit (bulk, simple, or error form, chosen by
    /// `sep`), advancing the cursor past it.
    fn parse_string(&mut self, sep: u8) -> (r: Result<String, DecodeError>)
        requires
            old(self).wf(),
        ensures
            final(self).wf(),
            final(self).input() == old(self).input(),
            old(self).position() <= final(self).position(),
            match r {
                Ok(s) => spec_parse_string(final(self).input(), old(self).position(), sep) == Ok::<
                    (Seq<char>, int),
                    (DecodeKind, int),
                >((s@, final(self).position())),
                Err(e) => spec_parse_string(final(self).input(), old(self).position(), sep) == Err::<
                    (Seq<char>, int),
                    (DecodeKind, int),
                >((e.kind, e.offset as int)) && final(self).position() == old(self).position(),
            },
    {
        proof {
            lemma_slice_len_bound(self.full);
        }
        let start = self.pos;
        let e1 = match find_byte_from(self.full, start, sep) {
            None => {
                return Err(DecodeError { kind: DecodeKind::MissingTerminator, offset: start });
            },
            Some(x) => x,
        };
        let e2 = match find_byte_from(self.full, e1 + 1, 13) {
            None => {
                return Err(DecodeError { kind: DecodeKind::MissingTerminator, offset: e1 + 1 });
            },
            Some(x) => x,
        };
        let payload = vstd::slice::slice_to_vec(vstd::slice::slice_subrange(self.full, e1 + 1, e2));
        let s = match bytes_to_string(payload) {
            None => {
                return Err(DecodeError { kind: DecodeKind::BadUtf8, offset: e1 + 1 });
            },
            Some(x) => x,
        };
        if self.full.len() - e2 < 2 {
            return Err(DecodeError { kind: DecodeKind::MissingTerminator, offset: e2 + 1 });
        }
        self.pos = e2 + 2;
        Ok(s)
    }

    /// Decode one array unit: the count, then exactly that many inner units,
    /// advancing the cursor past all of them. On an inner failure the cursor
    /// is left where that failure was detected.
    #[verifier::loop_isolation(false)]
    fn parse_array(&mut self) -> (r: Result<Vec<Value>, DecodeError>)
        requires
            old(self).wf(),
        ensures
            final(self).wf(),
            final(self).input() == old(self).input(),
            old(self).position() <= final(self).position(),
            match r {
                Ok(items) => spec_parse_array(final(self).input(), old(self).position()) == Ok::<
                    (Seq<ValueModel>, int),
                    (DecodeKind, int),
                >((models_of(items@), final(self).position())),
                Err(e) => spec_parse_array(final(self).input(), old(self).position()) == Err::<
                    (Seq<ValueModel>, int),
                    (DecodeKind, int),
                >((e.kind, e.offset as int)),
            },
        decreases old(self).full@.len() - old(self).pos, 0int,
    {
        proof {
            lemma_slice_len_bound(self.full);
        }
        let ghost input = self.full@;
        let start = self.pos;
        let e = match find_byte_from(self.full, start, 13) {
            None => {
                return Err(DecodeError { kind: DecodeKind::MissingTerminator, offset: start });
            },
            Some(x) => x,
        };
        if e - start < 1 {
            return Err(DecodeError { kind: DecodeKind::BadArrayLength, offset: start + 1 });
        }
        let n = match parse_usize_span(self.full, start + 1, e) {
            None => {
                return Err(DecodeError { kind: DecodeKind::BadArrayLength, offset: start + 1 });
            },
            Some(x) => x,
        };
        if self.full.len() - e < 2 {
            return Err(DecodeError { kind: DecodeKind::MissingTerminator, offset: e + 1 });
        }
        self.pos = e + 2;
        let ghost hdr_end = self.pos as int;
        let mut out: Vec<Value> = Vec::new();
        let mut i: usize = 0;
        proof {
            assert(models_of(out@) =~= Seq::<ValueModel>::empty());
        }
        while i < n
            invariant
                self.wf(),
                self.full@ == input,
                i <= n,
                out@.len() == i,
                hdr_end <= self.position() <= input.len(),
                spec_parse_elems(input, hdr_end, i as int) == Ok::<
                    (Seq<ValueModel>, int),
                    (DecodeKind, int),
                >((models_of(out@), self.position())),
                spec_parse_array(input, start as int) == spec_parse_elems(
                    input,
                    hdr_end,
                    n as int,
                ),
            decreases n - i,
        {
            let ghost cur = self.position();
            let v = match self.parse_value() {
                Err(e) => {
                    proof {
                        lemma_parse_elems_split(input, hdr_end, i as int, n as int - i as int);
                    }
                    return Err(e);
                },
                Ok(x) => x,
            };
            proof {
                let p2 = self.position();
                lemma_parse_value_bounds(input, cur);
                assert(cur < p2 <= input.len());
                lemma_parse_elems_split(input, hdr_end, i as int, 1);
                assert(spec_parse_elems(input, p2, 0) == Ok::<
                    (Seq<ValueModel>, int),
                    (DecodeKind, int),
                >((Seq::empty(), p2)));
                assert(seq![v.model()] + Seq::<ValueModel>::empty() =~= seq![v.model()]);
                assert(spec_parse_elems(input, cur, 1) == Ok::<
                    (Seq<ValueModel>, int),
                    (DecodeKind, int),
                >((seq![v.model()], p2)));
                assert(models_of(out@) + seq![v.model()] =~= models_of(out@).push(v.model()));
                lemma_models_of_push(out@, v);
                assert(spec_parse_elems(input, hdr_end, i as int + 1) == Ok::<
                    (Seq<ValueModel>, int),
                    (DecodeKind, int),
                >((models_of(out@.push(v)), p2)));
            }
            out.push(v);
            i = i + 1;
        }
        Ok(out)
    }

    /// Decode one unit of any kind at the cursor, dispatching on the marker
    /// byte, advancing the cursor past the bytes consumed.
    fn parse_value(&mut self) -> (r: Result<Value, DecodeError>)
        requires
            old(self).wf(),
        ensures
            final(self).wf(),
            final(self).input() == old(self).input(),
            old(self).position() <= final(self).position(),
            match r {
                Ok(v) => spec_parse_value(final(self).input(), old(self).position()) == Ok::<
                    (ValueModel, int),
                    (DecodeKind, int),
                >((v.model(), final(self).position())),
                Err(e) => spec_parse_value(final(self).input(), old(self).position()) == Err::<
                    (ValueModel, int),
                    (DecodeKind, int),
                >((e.kind, e.offset as int)) && e.offset <= final(self).input().len(),
            },
        decreases old(self).full@.len() - old(self).pos, 1int,
    {
        let ghost input = self.full@;
        let ghost start = self.position();
        if self.pos >= self.full.len() {
            return Err(DecodeError { kind: DecodeKind::EmptyInput, offset: self.pos });
        }
        let m = self.full[self.pos];
        if m == 58 {
            proof {
                lemma_parse_int_offset_bound(input, start);
            }
            match self.parse_int() {
                Ok(v) => Ok(Value::Integer(v)),
                Err(e) => Err(e),
            }
        } else if m == 36 {
            proof {
                lemma_parse_string_offset_bound(input, start, 10);
            }
            match self.parse_string(10) {
                Ok(s) => Ok(Value::String(s)),
                Err(e) => Err(e),
            }
        } else if m == 43 {
            proof {
                lemma_parse_string_offset_bound(input, start, 43);
            }
            match self.parse_string(43) {
                Ok(s) => Ok(Value::String(s)),
                Err(e) => Err(e),
            }
        } else if m == 45 {
            proof {
                lemma_parse_string_offset_bound(input, start, 45);
            }
            match self.parse_string(45) {
                Ok(s) => Ok(Value::Error(s)),
                Err(e) => Err(e),
            }
        } else if m == 42 {
            proof {
                lemma_parse_value_bounds(input, start);
            }
            match self.parse_array() {
                Ok(items) => Ok(Value::Array(items)),
                Err(e) => Err(e),
            }
        } else {
            Err(DecodeError { kind: DecodeKind::UnknownMarker, offset: self.pos })
        }
    }

    /// Yield the next decoded unit from the current cursor position, or
    /// `None` when the cursor is exhausted. Repeated calls continue from
    /// where the previous one stopped.
    pub fn next(&mut self) -> (r: Option<Result<Value, DecodeError>>)
        requires
            old(self).wf(),
        ensures
            final(self).wf(),
            final(self).input() == old(self).input(),
            old(self).position() <= final(self).position(),
            match r {
                None => old(self).position() == final(self).input().len() && final(self).position()
                    == old(self).position(),
                Some(res) => old(self).position() < final(self).input().len() && match res {
                    Ok(v) => spec_parse_value(final(self).input(), old(self).position()) == Ok::<
                        (ValueModel, int),
                        (DecodeKind, int),
                    >((v.model(), final(self).position())),
                    Err(e) => spec_parse_value(final(self).input(), old(self).position()) == Err::<
                        (ValueModel, int),
                        (DecodeKind, int),
                    >((e.kind, e.offset as int)) && e.offset <= final(self).input().len(),
                },
            },
    {
        if self.pos >= self.full.len() {
            return None;
        }
        Some(self.parse_value())
    }
}

/// Error offsets of an integer unit lie within the input.
proof fn lemma_parse_int_offset_bound(input: Seq<u8>, pos: int)
    requires
        0 <= pos <= input.len(),
    ensures
        spec_parse_int(input, pos) matches Err((k, off)) ==> 0 <= off <= input.len(),
{
    lemma_find_byte(input, pos, 10);
    lemma_find_byte(input, pos, 13);
}

/// Error offsets of a string-like unit lie within the input.
proof fn lemma_parse_string_offset_bound(input: Seq<u8>, pos: int, sep: u8)
    requires
        0 <= pos <= input.len(),
    ensures
        spec_parse_string(input, pos, sep) matches Err((k, off)) ==> 0 <= off <= input.len(),
{
    lemma_find_byte(input, pos, sep);
    if let Some(e1) = find_byte(input, pos, sep) {
        lemma_find_byte(input, e1 + 1, 13);
    }
}

} // verus!
