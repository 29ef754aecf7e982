//! The laws the library states of itself, proved once and for all: encoding
//! then decoding a string value is the identity, and an array header followed
//! by well-formed encoded values decodes to exactly those values, in order.

use vstd::prelude::*;
use vstd::utf8::{
    encode_utf8, encode_utf8_valid_utf8, encode_utf8_decode_utf8, is_ascii_chars,
    is_ascii_chars_encode_utf8,
};
use vstd::arithmetic::div_mod::lemma_fundamental_div_mod;
use crate::value::{ValueModel, spec_encode_string, dec_chars, digit_char};
use crate::parser::{
    find_byte, lemma_find_byte, DecodeKind, spec_parse_value, spec_parse_string, spec_parse_int,
    spec_parse_array, spec_parse_elems, spec_parse_usize, all_digits, digits_val, is_digit_byte,
    lemma_parse_value_bounds,
};

verus! {

broadcast use vstd::seq::group_seq_axioms;

/// `find_byte` is pinned by a witness: the first occurrence is where one is
/// and none stands before.
proof fn lemma_find_byte_exact(input: Seq<u8>, from: int, target: u8, k: int)
    requires
        0 <= from <= k < input.len(),
        input[k] == target,
        forall|j: int| from <= j < k ==> input[j] != target,
    ensures
        find_byte(input, from, target) == Some(k),
{
    lemma_find_byte(input, from, target);
    match find_byte(input, from, target) {
        Some(k2) => {
            if k2 < k {
                assert(input[k2] != target);
            } else if k2 > k {
                assert(input[k] != target);
            }
        },
        None => {
            assert(input[k] != target);
        },
    }
}

/// UTF-8 encoding distributes over concatenation.
proof fn lemma_encode_utf8_concat(a: Seq<char>, b: Seq<char>)
    ensures
        encode_utf8(a + b) == encode_utf8(a) + encode_utf8(b),
    decreases a.len(),
{
    if a.len() == 0 {
        assert(a + b =~= b);
        assert(encode_utf8(a) + encode_utf8(b) =~= encode_utf8(b));
    } else {
        assert((a + b).drop_first() =~= a.drop_first() + b);
        lemma_encode_utf8_concat(a.drop_first(), b);
        assert((a + b)[0] == a[0]);
        assert(encode_utf8(a + b) =~= encode_utf8(a) + encode_utf8(b));
    }
}

/// The decimal digits of a number are at least one character, all of them
/// ASCII digit characters.
proof fn lemma_dec_chars_digits(n: nat)
    ensures
        dec_chars(n).len() >= 1,
        is_ascii_chars(dec_chars(n)),
        forall|i: int|
            0 <= i < dec_chars(n).len() ==> 48 <= (#[trigger] dec_chars(n)[i]) as u32 <= 57,
    decreases n,
{
    if n < 10 {
        assert(digit_char(n) as u32 == 48 + n);
    } else {
        lemma_dec_chars_digits(n / 10);
        assert(digit_char(n % 10) as u32 == 48 + n % 10);
    }
}

/// Law: decoding the bytes produced by encoding a string value yields that
/// value back, consuming the whole encoding, whenever the payload's UTF-8
/// bytes contain no carriage return (a payload with an embedded CR is cut
/// short at it by the decoder, which scans for the terminator).
pub proof fn lemma_string_round_trip(t: Seq<char>)
    requires
        forall|i: int| 0 <= i < encode_utf8(t).len() ==> encode_utf8(t)[i] != 13,
    ensures
        ({
            let bytes = encode_utf8(spec_encode_string(t));
            spec_parse_value(bytes, 0) == Ok::<(ValueModel, int), (DecodeKind, int)>(
                (ValueModel::VStr(t), bytes.len() as int),
            )
        }),
{
    let p = encode_utf8(t);
    let l = p.len();
    let d = dec_chars(l);
    let db = encode_utf8(d);
    let dl = db.len() as int;
    let pl = p.len() as int;
    let bytes = encode_utf8(spec_encode_string(t));

    lemma_dec_chars_digits(l);
    is_ascii_chars_encode_utf8(d);
    assert(db.len() == d.len());
    assert(forall|i: int| 0 <= i < dl ==> 48 <= #[trigger] db[i] <= 57) by {
        assert(forall|i: int| 0 <= i < d.len() ==> d[i] as u8 == #[trigger] db[i]);
        assert(forall|i: int|
            0 <= i < d.len() ==> 48 <= (#[trigger] d[i]) as u32 <= 57 && '\0' <= d[i]
                <= '\u{7f}');
    }

    let mark = seq!['$'];
    let crlf = seq!['\r', '\n'];
    is_ascii_chars_encode_utf8(mark);
    is_ascii_chars_encode_utf8(crlf);
    assert(encode_utf8(mark) =~= seq![36u8]);
    assert(encode_utf8(crlf) =~= seq![13u8, 10u8]);

    // split the encoding of the whole wire form into its five pieces
    assert(spec_encode_string(t) == mark + d + crlf + t + crlf);
    lemma_encode_utf8_concat(mark + d + crlf + t, crlf);
    assert(mark + d + crlf + t + crlf == (mark + d + crlf + t) + crlf);
    lemma_encode_utf8_concat(mark + d + crlf, t);
    assert(mark + d + crlf + t == (mark + d + crlf) + t);
    lemma_encode_utf8_concat(mark + d, crlf);
    assert(mark + d + crlf == (mark + d) + crlf);
    lemma_encode_utf8_concat(mark, d);
    assert(bytes =~= seq![36u8] + db + seq![13u8, 10u8] + p + seq![13u8, 10u8]);

    assert(bytes.len() == 5 + dl + pl);
    assert(bytes[0] == 36);
    assert(forall|j: int| 1 <= j < 1 + dl ==> #[trigger] bytes[j] == db[j - 1]);
    assert(bytes[1 + dl] == 13);
    assert(bytes[2 + dl] == 10);
    assert(forall|j: int| 3 + dl <= j < 3 + dl + pl ==> #[trigger] bytes[j] == p[j - 3 - dl]);
    assert(bytes[3 + dl + pl] == 13);
    assert(bytes[4 + dl + pl] == 10);

    // the decoder's two searches land on the header's LF and the payload's CR
    lemma_find_byte_exact(bytes, 0, 10, 2 + dl);
    lemma_find_byte_exact(bytes, 3 + dl, 13, 3 + dl + pl);

    assert(bytes.subrange(3 + dl, 3 + dl + pl) =~= p);
    encode_utf8_valid_utf8(t);
    encode_utf8_decode_utf8(t);
    assert(spec_parse_string(bytes, 0, 10) == Ok::<(Seq<char>, int), (DecodeKind, int)>(
        (t, bytes.len() as int),
    ));
}

// ---------------------------------------------------------------------------
// Decoding is stable under appending and prepending bytes
// ---------------------------------------------------------------------------

/// A found first occurrence is unmoved by bytes appended at the end.
proof fn lemma_find_byte_extend(input: Seq<u8>, ext: Seq<u8>, from: int, target: u8)
    requires
        0 <= from,
        find_byte(input, from, target) is Some,
    ensures
        find_byte(input + ext, from, target) == find_byte(input, from, target),
{
    lemma_find_byte(input, from, target);
    let k = find_byte(input, from, target)->Some_0;
    lemma_find_byte_exact(input + ext, from, target, k);
}

/// A found first occurrence shifts with bytes prepended at the front.
proof fn lemma_find_byte_prepend(pre: Seq<u8>, x: Seq<u8>, from: int, target: u8)
    requires
        0 <= from,
        find_byte(x, from, target) is Some,
    ensures
        find_byte(pre + x, pre.len() + from, target) == Some(
            pre.len() + find_byte(x, from, target)->Some_0,
        ),
{
    lemma_find_byte(x, from, target);
    let k = find_byte(x, from, target)->Some_0;
    lemma_find_byte_exact(pre + x, pre.len() + from, target, pre.len() + k);
}

/// A successfully decoded integer unit is unmoved by appended bytes.
proof fn lemma_parse_int_extend(input: Seq<u8>, ext: Seq<u8>, pos: int)
    requires
        0 <= pos,
        spec_parse_int(input, pos) is Ok,
    ensures
        spec_parse_int(input + ext, pos) == spec_parse_int(input, pos),
{
    lemma_find_byte(input, pos, 10);
    lemma_find_byte(input, pos, 13);
    lemma_find_byte_extend(input, ext, pos, 10);
    lemma_find_byte_extend(input, ext, pos, 13);
    let e = find_byte(input, pos, 10)->Some_0;
    let r = find_byte(input, pos, 13)->Some_0;
    let c1 = input[pos + 1];
    let off: int = if c1 == 43 || c1 == 45 {
        1
    } else {
        0
    };
    assert((input + ext)[pos + 1] == c1);
    assert((input + ext).subrange(pos + 1 + off, r) =~= input.subrange(pos + 1 + off, r));
}

/// A successfully decoded integer unit shifts with prepended bytes.
proof fn lemma_parse_int_prepend(pre: Seq<u8>, x: Seq<u8>, pos: int)
    requires
        0 <= pos,
        spec_parse_int(x, pos) is Ok,
    ensures
        spec_parse_int(pre + x, pre.len() + pos) == Ok::<(int, int), (DecodeKind, int)>(
            (
                spec_parse_int(x, pos)->Ok_0.0,
                pre.len() + spec_parse_int(x, pos)->Ok_0.1,
            ),
        ),
{
    let pl = pre.len() as int;
    lemma_find_byte(x, pos, 10);
    lemma_find_byte(x, pos, 13);
    lemma_find_byte_prepend(pre, x, pos, 10);
    lemma_find_byte_prepend(pre, x, pos, 13);
    let e = find_byte(x, pos, 10)->Some_0;
    let r = find_byte(x, pos, 13)->Some_0;
    let c1 = x[pos + 1];
    let off: int = if c1 == 43 || c1 == 45 {
        1
    } else {
        0
    };
    assert((pre + x)[pl + pos + 1] == c1);
    assert((pre + x).subrange(pl + pos + 1 + off, pl + r) =~= x.subrange(pos + 1 + off, r));
}

/// A successfully decoded string-like unit is unmoved by appended bytes.
proof fn lemma_parse_string_extend(input: Seq<u8>, ext: Seq<u8>, pos: int, sep: u8)
    requires
        0 <= pos,
        spec_parse_string(input, pos, sep) is Ok,
    ensures
        spec_parse_string(input + ext, pos, sep) == spec_parse_string(input, pos, sep),
{
    lemma_find_byte(input, pos, sep);
    lemma_find_byte_extend(input, ext, pos, sep);
    let e1 = find_byte(input, pos, sep)->Some_0;
    lemma_find_byte(input, e1 + 1, 13);
    lemma_find_byte_extend(input, ext, e1 + 1, 13);
    let e2 = find_byte(input, e1 + 1, 13)->Some_0;
    assert((input + ext).subrange(e1 + 1, e2) =~= input.subrange(e1 + 1, e2));
}

/// A successfully decoded string-like unit shifts with prepended bytes.
proof fn lemma_parse_string_prepend(pre: Seq<u8>, x: Seq<u8>, pos: int, sep: u8)
    requires
        0 <= pos,
        spec_parse_string(x, pos, sep) is Ok,
    ensures
        spec_parse_string(pre + x, pre.len() + pos, sep) == Ok::<
            (Seq<char>, int),
            (DecodeKind, int),
        >(
            (
                spec_parse_string(x, pos, sep)->Ok_0.0,
                pre.len() + spec_parse_string(x, pos, sep)->Ok_0.1,
            ),
        ),
{
    let pl = pre.len() as int;
    lemma_find_byte(x, pos, sep);
    lemma_find_byte_prepend(pre, x, pos, sep);
    let e1 = find_byte(x, pos, sep)->Some_0;
    lemma_find_byte(x, e1 + 1, 13);
    lemma_find_byte_prepend(pre, x, e1 + 1, 13);
    let e2 = find_byte(x, e1 + 1, 13)->Some_0;
    assert((pre + x).subrange(pl + e1 + 1, pl + e2) =~= x.subrange(e1 + 1, e2));
}

/// A successfully decoded unit of any kind is unmoved by appended bytes.
pub proof fn lemma_parse_value_extend(input: Seq<u8>, ext: Seq<u8>, pos: int)
    requires
        0 <= pos,
        spec_parse_value(input, pos) is Ok,
    ensures
        spec_parse_value(input + ext, pos) == spec_parse_value(input, pos),
    decreases input.len() - pos, 1int, 0int,
{
    assert((input + ext)[pos] == input[pos]);
    let m = input[pos];
    if m == 58 {
        lemma_parse_int_extend(input, ext, pos);
    } else if m == 36 {
        lemma_parse_string_extend(input, ext, pos, 10);
    } else if m == 43 {
        lemma_parse_string_extend(input, ext, pos, 43);
    } else if m == 45 {
        lemma_parse_string_extend(input, ext, pos, 45);
    } else if m == 42 {
        lemma_parse_array_extend(input, ext, pos);
    }
}

/// A successfully decoded array unit is unmoved by appended bytes.
proof fn lemma_parse_array_extend(input: Seq<u8>, ext: Seq<u8>, pos: int)
    requires
        0 <= pos,
        spec_parse_array(input, pos) is Ok,
    ensures
        spec_parse_array(input + ext, pos) == spec_parse_array(input, pos),
    decreases input.len() - pos, 0int, 0int,
{
    lemma_find_byte(input, pos, 13);
    lemma_find_byte_extend(input, ext, pos, 13);
    let e = find_byte(input, pos, 13)->Some_0;
    assert((input + ext).subrange(pos + 1, e) =~= input.subrange(pos + 1, e));
    let n = spec_parse_usize(input.subrange(pos + 1, e))->Some_0;
    lemma_parse_elems_extend(input, ext, e + 2, n);
}

/// A successfully decoded run of units is unmoved by appended bytes.
proof fn lemma_parse_elems_extend(input: Seq<u8>, ext: Seq<u8>, pos: int, n: int)
    requires
        0 <= pos,
        spec_parse_elems(input, pos, n) is Ok,
    ensures
        spec_parse_elems(input + ext, pos, n) == spec_parse_elems(input, pos, n),
    decreases input.len() - pos, 2int, n,
{
    if n <= 0 {
    } else {
        lemma_parse_value_extend(input, ext, pos);
        let (m, p2) = spec_parse_value(input, pos)->Ok_0;
        if pos < p2 <= input.len() {
            lemma_parse_elems_extend(input, ext, p2, n - 1);
        }
    }
}

/// A successfully decoded unit of any kind shifts with prepended bytes.
pub proof fn lemma_parse_value_prepend(pre: Seq<u8>, x: Seq<u8>, pos: int)
    requires
        0 <= pos,
        spec_parse_value(x, pos) is Ok,
    ensures
        spec_parse_value(pre + x, pre.len() + pos) == Ok::<(ValueModel, int), (DecodeKind, int)>(
            (
                spec_parse_value(x, pos)->Ok_0.0,
                pre.len() + spec_parse_value(x, pos)->Ok_0.1,
            ),
        ),
    decreases x.len() - pos, 1int, 0int,
{
    assert((pre + x)[pre.len() + pos] == x[pos]);
    let m = x[pos];
    if m == 58 {
        lemma_parse_int_prepend(pre, x, pos);
    } else if m == 36 {
        lemma_parse_string_prepend(pre, x, pos, 10);
    } else if m == 43 {
        lemma_parse_string_prepend(pre, x, pos, 43);
    } else if m == 45 {
        lemma_parse_string_prepend(pre, x, pos, 45);
    } else if m == 42 {
        lemma_parse_array_prepend(pre, x, pos);
    }
}

/// A successfully decoded array unit shifts with prepended bytes.
proof fn lemma_parse_array_prepend(pre: Seq<u8>, x: Seq<u8>, pos: int)
    requires
        0 <= pos,
        spec_parse_array(x, pos) is Ok,
    ensures
        spec_parse_array(pre + x, pre.len() + pos) == Ok::<
            (Seq<ValueModel>, int),
            (DecodeKind, int),
        >(
            (
                spec_parse_array(x, pos)->Ok_0.0,
                pre.len() + spec_parse_array(x, pos)->Ok_0.1,
            ),
        ),
    decreases x.len() - pos, 0int, 0int,
{
    let pl = pre.len() as int;
    lemma_find_byte(x, pos, 13);
    lemma_find_byte_prepend(pre, x, pos, 13);
    let e = find_byte(x, pos, 13)->Some_0;
    assert((pre + x).subrange(pl + pos + 1, pl + e) =~= x.subrange(pos + 1, e));
    let n = spec_parse_usize(x.subrange(pos + 1, e))->Some_0;
    lemma_parse_elems_prepend(pre, x, e + 2, n);
}

/// A successfully decoded run of units shifts with prepended bytes.
proof fn lemma_parse_elems_prepend(pre: Seq<u8>, x: Seq<u8>, pos: int, n: int)
    requires
        0 <= pos,
        spec_parse_elems(x, pos, n) is Ok,
    ensures
        spec_parse_elems(pre + x, pre.len() + pos, n) == Ok::<
            (Seq<ValueModel>, int),
            (DecodeKind, int),
        >(
            (
                spec_parse_elems(x, pos, n)->Ok_0.0,
                pre.len() + spec_parse_elems(x, pos, n)->Ok_0.1,
            ),
        ),
    decreases x.len() - pos, 2int, n,
{
    if n <= 0 {
    } else {
        lemma_parse_value_prepend(pre, x, pos);
        let (m, p2) = spec_parse_value(x, pos)->Ok_0;
        if pos < p2 <= x.len() {
            lemma_parse_elems_prepend(pre, x, p2, n - 1);
        }
    }
}

// ---------------------------------------------------------------------------
// The array concatenation law
// ---------------------------------------------------------------------------

/// The decimal digits of `n`, most significant first, as bytes.
pub open spec fn dec_bytes(n: nat) -> Seq<u8>
    decreases n,
{
    if n < 10 {
        seq![(48 + n) as u8]
    } else {
        dec_bytes(n / 10).push((48 + n % 10) as u8)
    }
}

/// The decimal digits of `n` denote `n` again: at least one byte, all of
/// them digits, and their value is `n`.
proof fn lemma_dec_bytes(n: nat)
    ensures
        dec_bytes(n).len() >= 1,
        all_digits(dec_bytes(n)),
        digits_val(dec_bytes(n)) == n,
    decreases n,
{
    if n < 10 {
        assert((48 + n) as u8 == 48 + n);
        assert(dec_bytes(n).drop_last() =~= Seq::<u8>::empty());
        assert(digits_val(dec_bytes(n)) == digits_val(Seq::<u8>::empty()) * 10 + n);
    } else {
        lemma_dec_bytes(n / 10);
        lemma_fundamental_div_mod(n as int, 10);
        assert((48 + n % 10) as u8 == 48 + n % 10);
        assert(dec_bytes(n).drop_last() =~= dec_bytes(n / 10));
        assert(dec_bytes(n).last() == (48 + n % 10) as u8);
        assert(digits_val(dec_bytes(n)) == digits_val(dec_bytes(n / 10)) * 10 + n % 10);
    }
}

/// An array header's count parses back to the count.
proof fn lemma_dec_bytes_parse_usize(n: nat)
    requires
        n <= usize::MAX,
    ensures
        spec_parse_usize(dec_bytes(n)) == Some(n as int),
{
    lemma_dec_bytes(n);
    assert(is_digit_byte(dec_bytes(n)[0]));
}

/// The wire header of an array of `n` elements: the marker, the decimal
/// count, CR-LF.
pub open spec fn array_header(n: nat) -> Seq<u8> {
    seq![42u8] + dec_bytes(n) + seq![13u8, 10u8]
}

/// After any prefix, a run of chunks that each decode as one whole unit
/// decodes as that run of units, consuming all of them.
proof fn lemma_chunks_decode_in_order(pre: Seq<u8>, chunks: Seq<Seq<u8>>, ms: Seq<ValueModel>)
    requires
        chunks.len() == ms.len(),
        forall|i: int|
            0 <= i < chunks.len() ==> #[trigger] spec_parse_value(chunks[i], 0) == Ok::<
                (ValueModel, int),
                (DecodeKind, int),
            >((ms[i], chunks[i].len() as int)),
    ensures
        spec_parse_elems(pre + chunks.flatten(), pre.len() as int, chunks.len() as int) == Ok::<
            (Seq<ValueModel>, int),
            (DecodeKind, int),
        >((ms, (pre + chunks.flatten()).len() as int)),
    decreases chunks.len(),
{
    let input = pre + chunks.flatten();
    if chunks.len() == 0 {
        assert(chunks.flatten() =~= Seq::<u8>::empty());
        assert(input =~= pre);
        assert(ms =~= Seq::<ValueModel>::empty());
    } else {
        let c0 = chunks[0];
        let rest = chunks.drop_first();
        assert(chunks.flatten() == c0 + rest.flatten());
        lemma_parse_value_bounds(c0, 0);
        assert(c0.len() > 0);
        lemma_parse_value_extend(c0, rest.flatten(), 0);
        lemma_parse_value_prepend(pre, c0 + rest.flatten(), 0);
        assert(pre + (c0 + rest.flatten()) =~= input);
        let p2 = pre.len() + c0.len();
        assert(spec_parse_value(input, pre.len() as int) == Ok::<
            (ValueModel, int),
            (DecodeKind, int),
        >((ms[0], p2 as int)));
        assert(forall|i: int|
            0 <= i < rest.len() ==> #[trigger] spec_parse_value(rest[i], 0) == Ok::<
                (ValueModel, int),
                (DecodeKind, int),
            >((ms.drop_first()[i], rest[i].len() as int)));
        lemma_chunks_decode_in_order(pre + c0, rest, ms.drop_first());
        assert((pre + c0) + rest.flatten() =~= input);
        assert(spec_parse_elems(input, p2 as int, rest.len() as int) == Ok::<
            (Seq<ValueModel>, int),
            (DecodeKind, int),
        >((ms.drop_first(), input.len() as int)));
        assert(seq![ms[0]] + ms.drop_first() =~= ms);
    }
}

/// Law: for any count of well-formed encoded values, the bytes of an array
/// header declaring that count followed by those encodings, concatenated in
/// order, decode to the array of exactly those values, in that order,
/// consuming the whole input. The count is bounded only by the machine's
/// limit on lengths.
pub proof fn lemma_array_of_concatenated_values(chunks: Seq<Seq<u8>>, ms: Seq<ValueModel>)
    requires
        chunks.len() == ms.len(),
        chunks.len() <= usize::MAX,
        forall|i: int|
            0 <= i < chunks.len() ==> #[trigger] spec_parse_value(chunks[i], 0) == Ok::<
                (ValueModel, int),
                (DecodeKind, int),
            >((ms[i], chunks[i].len() as int)),
    ensures
        ({
            let input = array_header(chunks.len() as nat) + chunks.flatten();
            spec_parse_value(input, 0) == Ok::<(ValueModel, int), (DecodeKind, int)>(
                (ValueModel::VArr(ms), input.len() as int),
            )
        }),
{
    let n = chunks.len() as nat;
    let hdr = array_header(n);
    let db = dec_bytes(n);
    let dl = db.len() as int;
    let input = hdr + chunks.flatten();

    lemma_dec_bytes(n);
    assert(input[0] == 42);
    assert(forall|j: int| 1 <= j < 1 + dl ==> #[trigger] input[j] == db[j - 1]);
    assert(forall|j: int| 1 <= j < 1 + dl ==> input[j] != 13) by {
        assert(forall|j: int| 1 <= j < 1 + dl ==> is_digit_byte(#[trigger] input[j]));
    }
    assert(input[1 + dl] == 13);
    assert(input[2 + dl] == 10);
    lemma_find_byte_exact(input, 0, 13, 1 + dl);
    assert(input.subrange(1, 1 + dl) =~= db);
    lemma_dec_bytes_parse_usize(n);
    lemma_chunks_decode_in_order(hdr, chunks, ms);
    assert(hdr.len() as int == 3 + dl);
    assert(spec_parse_elems(input, 3 + dl, n as int) == Ok::<
        (Seq<ValueModel>, int),
        (DecodeKind, int),
    >((ms, input.len() as int)));
}

} // verus!
