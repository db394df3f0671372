//! The binary-text codec: a reversible transform between raw bytes and a
//! 64-symbol printable alphabet with `=` padding. Three source bytes become
//! four symbols; the final group pads missing bytes with `=`.

use vstd::prelude::*;
use vstd::string::StringSliceAdditionalSpecFns;

use crate::errors::GatewayError;
use crate::strutil::ascii_bytes_to_string;

verus! {

/// The `=` padding byte.
pub open spec fn pad_byte() -> u8 {
    61
}

/// The alphabet symbol for a six-bit value.
pub open spec fn b64_symbol(v: u8) -> u8
    recommends
        v < 64,
{
    if v < 26 {
        (65 + v) as u8
    } else if v < 52 {
        (97 + (v - 26)) as u8
    } else if v < 62 {
        (48 + (v - 52)) as u8
    } else if v == 62 {
        43
    } else {
        47
    }
}

/// The six-bit value of an alphabet symbol, or `None` for a byte outside
/// the alphabet (`=` included).
pub open spec fn b64_value(b: u8) -> Option<u8> {
    if 65 <= b && b <= 90 {
        Some((b - 65) as u8)
    } else if 97 <= b && b <= 122 {
        Some((b - 97 + 26) as u8)
    } else if 48 <= b && b <= 57 {
        Some((b - 48 + 52) as u8)
    } else if b == 43 {
        Some(62u8)
    } else if b == 47 {
        Some(63u8)
    } else {
        None
    }
}

/// The four symbols encoding one group of one, two or three source bytes.
pub open spec fn encode_group(g: Seq<u8>) -> Seq<u8>
    recommends
        1 <= g.len() <= 3,
{
    let s0 = b64_symbol(g[0] >> 2);
    if g.len() == 1 {
        seq![s0, b64_symbol((g[0] & 3) << 4), pad_byte(), pad_byte()]
    } else if g.len() == 2 {
        seq![
            s0,
            b64_symbol((g[0] & 3) << 4 | g[1] >> 4),
            b64_symbol((g[1] & 15) << 2),
            pad_byte(),
        ]
    } else {
        seq![
            s0,
            b64_symbol((g[0] & 3) << 4 | g[1] >> 4),
            b64_symbol((g[1] & 15) << 2 | g[2] >> 6),
            b64_symbol(g[2] & 63),
        ]
    }
}

/// The encoding of a byte sequence: groups of three bytes, each rendered
/// as four symbols.
pub open spec fn b64_encode(data: Seq<u8>) -> Seq<u8>
    decreases data.len(),
{
    if data.len() == 0 {
        Seq::empty()
    } else if data.len() <= 3 {
        encode_group(data)
    } else {
        encode_group(data.take(3)) + b64_encode(data.skip(3))
    }
}

/// The bytes recovered from one group of four symbols: one to three bytes
/// depending on the trailing `=` count, or `None` for an invalid group.
pub open spec fn decode_group(g: Seq<u8>) -> Option<Seq<u8>>
    recommends
        g.len() == 4,
{
    match (b64_value(g[0]), b64_value(g[1])) {
        (Some(v0), Some(v1)) => {
            let byte0 = v0 << 2 | v1 >> 4;
            if g[2] == pad_byte() && g[3] == pad_byte() {
                Some(seq![byte0])
            } else if g[3] == pad_byte() {
                match b64_value(g[2]) {
                    Some(v2) => Some(seq![byte0, (v1 & 15) << 4 | v2 >> 2]),
                    None => None,
                }
            } else {
                match (b64_value(g[2]), b64_value(g[3])) {
                    (Some(v2), Some(v3)) => Some(
                        seq![byte0, (v1 & 15) << 4 | v2 >> 2, (v2 & 3) << 6 | v3],
                    ),
                    _ => None,
                }
            }
        },
        _ => None,
    }
}

/// A byte the decoder skips before grouping: ASCII whitespace.
pub open spec fn is_codec_ws(b: u8) -> bool {
    b == 32 || b == 9 || b == 10 || b == 13 || b == 12
}

/// The input with ASCII whitespace removed.
pub open spec fn strip_ws(s: Seq<u8>) -> Seq<u8>
    decreases s.len(),
{
    if s.len() == 0 {
        Seq::empty()
    } else {
        let rest = strip_ws(s.drop_last());
        if is_codec_ws(s.last()) {
            rest
        } else {
            rest.push(s.last())
        }
    }
}

/// The decoding of a whitespace-free symbol sequence: `None` unless the
/// length is a multiple of four and every group is valid.
pub open spec fn b64_decode_clean(s: Seq<u8>) -> Option<Seq<u8>>
    decreases s.len(),
{
    if s.len() % 4 != 0 {
        None
    } else if s.len() == 0 {
        Some(Seq::empty())
    } else {
        match decode_group(s.take(4)) {
            None => None,
            Some(bs) => match b64_decode_clean(s.skip(4)) {
                None => None,
                Some(rest) => Some(bs + rest),
            },
        }
    }
}

/// The decoding of arbitrary input bytes: whitespace is stripped first.
pub open spec fn b64_decode(s: Seq<u8>) -> Option<Seq<u8>> {
    b64_decode_clean(strip_ws(s))
}

/// The alphabet symbol for a six-bit value.
fn encode_symbol(v: u8) -> (r: u8)
    requires
        v < 64,
    ensures
        r == b64_symbol(v),
        32 < r < 128,
{
    if v < 26 {
        65 + v
    } else if v < 52 {
        97 + (v - 26)
    } else if v < 62 {
        48 + (v - 52)
    } else if v == 62 {
        43
    } else {
        47
    }
}

/// The six-bit value of one symbol byte, or `None` if the byte is outside
/// the 64-symbol alphabet.
pub fn decode_base64_char(byte: u8) -> (r: Option<u32>)
    ensures
        match r {
            Some(v) => b64_value(byte) == Some(v as u8) && v < 64,
            None => b64_value(byte) is None,
        },
{
    if 65 <= byte && byte <= 90 {
        Some((byte - 65) as u32)
    } else if 97 <= byte && byte <= 122 {
        Some((byte - 97 + 26) as u32)
    } else if 48 <= byte && byte <= 57 {
        Some((byte - 48 + 52) as u32)
    } else if byte == 43 {
        Some(62)
    } else if byte == 47 {
        Some(63)
    } else {
        None
    }
}

/// The six-bit fields carved out of source bytes stay below 64.
proof fn lemma_six_bit_bounds(x: u8, y: u8)
    ensures
        (x >> 2) < 64,
        ((x & 3) << 4 | (y >> 4)) < 64,
        ((x & 3) << 4) < 64,
        ((x & 15) << 2 | (y >> 6)) < 64,
        ((x & 15) << 2) < 64,
        (x & 63) < 64,
{
    assert((x >> 2) < 64 && ((x & 3) << 4 | (y >> 4)) < 64 && ((x & 3) << 4) < 64 && ((x & 15)
        << 2 | (y >> 6)) < 64 && ((x & 15) << 2) < 64 && (x & 63) < 64) by (bit_vector);
}

/// Splitting an encoding at a group boundary splits the symbol stream.
proof fn lemma_encode_append(a: Seq<u8>, b: Seq<u8>)
    requires
        a.len() % 3 == 0,
    ensures
        b64_encode(a + b) == b64_encode(a) + b64_encode(b),
    decreases a.len(),
{
    if a.len() == 0 {
        assert(a + b =~= b);
        assert(b64_encode(a) + b64_encode(b) =~= b64_encode(b));
    } else if b.len() == 0 {
        assert(a + b =~= a);
        assert(b64_encode(a) + b64_encode(b) =~= b64_encode(a));
    } else {
        assert((a + b).take(3) =~= a.take(3));
        assert((a + b).skip(3) =~= a.skip(3) + b);
        lemma_encode_append(a.skip(3), b);
        assert(b64_encode(a + b) =~= b64_encode(a) + b64_encode(b));
    }
}

/// Encodes bytes as printable text.
///
/// Empty input gives empty output; otherwise each group of three bytes
/// becomes four alphabet symbols, with `=` standing for missing bytes in
/// the final group.
pub fn encode_base64(data: &[u8]) -> (r: String)
    ensures
        r@ == b64_encode(data@).map_values(|b: u8| b as char),
{
    let len = data.len();
    let mut syms: Vec<u8> = Vec::new();
    let mut i: usize = 0;
    while i < len
        invariant
            len == data@.len(),
            i <= len,
            i % 3 == 0 || i == len,
            syms@ == b64_encode(data@.take(i as int)),
            forall|k: int| 0 <= k < syms@.len() ==> 32 < #[trigger] syms@[k] < 128,
        decreases len - i,
    {
        let ghost old_i = i as int;
        let b0 = data[i];
        proof {
            lemma_six_bit_bounds(b0, 0);
        }
        let s0 = encode_symbol(b0 >> 2);
        let remaining = len - i;
        let ghost prev = syms@;
        let ghost group = data@.subrange(
            i as int,
            if remaining >= 3 { i + 3 } else { len as int },
        );
        if remaining >= 3 {
            let b1 = data[i + 1];
            let b2 = data[i + 2];
            proof {
                lemma_six_bit_bounds(b0, b1);
                lemma_six_bit_bounds(b1, b2);
                lemma_six_bit_bounds(b2, 0);
            }
            syms.push(s0);
            syms.push(encode_symbol((b0 & 3) << 4 | b1 >> 4));
            syms.push(encode_symbol((b1 & 15) << 2 | b2 >> 6));
            syms.push(encode_symbol(b2 & 63));
            i = i + 3;
        } else if remaining == 2 {
            let b1 = data[i + 1];
            proof {
                lemma_six_bit_bounds(b0, b1);
                lemma_six_bit_bounds(b1, 0);
            }
            syms.push(s0);
            syms.push(encode_symbol((b0 & 3) << 4 | b1 >> 4));
            syms.push(encode_symbol((b1 & 15) << 2));
            syms.push(61);
            i = i + 2;
        } else {
            syms.push(s0);
            syms.push(encode_symbol((b0 & 3) << 4));
            syms.push(61);
            syms.push(61);
            i = i + 1;
        }
        proof {
            assert(syms@ =~= prev + encode_group(group));
            assert(data@.take(i as int) =~= data@.take(old_i) + group);
            lemma_encode_append(data@.take(old_i), group);
            assert(b64_encode(group) == encode_group(group));
        }
    }
    proof {
        assert(data@.take(len as int) =~= data@);
    }
    ascii_bytes_to_string(syms)
}

/// The six-bit value of one symbol byte, as the decoder uses it.
fn sym_value(b: u8) -> (r: Option<u8>)
    ensures
        r == b64_value(b),
{
    if 65 <= b && b <= 90 {
        Some(b - 65)
    } else if 97 <= b && b <= 122 {
        Some(b - 97 + 26)
    } else if 48 <= b && b <= 57 {
        Some(b - 48 + 52)
    } else if b == 43 {
        Some(62)
    } else if b == 47 {
        Some(63)
    } else {
        None
    }
}

/// Decodes one group of four symbol bytes.
fn decode_group_exec(c0: u8, c1: u8, c2: u8, c3: u8) -> (r: Option<Vec<u8>>)
    ensures
        match r {
            Some(v) => decode_group(seq![c0, c1, c2, c3]) == Some(v@),
            None => decode_group(seq![c0, c1, c2, c3]) is None,
        },
{
    match (sym_value(c0), sym_value(c1)) {
        (Some(v0), Some(v1)) => {
            let byte0 = v0 << 2 | v1 >> 4;
            let mut out: Vec<u8> = Vec::new();
            out.push(byte0);
            if c2 == 61 && c3 == 61 {
                proof {
                    assert(out@ =~= decode_group(seq![c0, c1, c2, c3])->Some_0);
                }
                Some(out)
            } else if c3 == 61 {
                match sym_value(c2) {
                    Some(v2) => {
                        out.push((v1 & 15) << 4 | v2 >> 2);
                        proof {
                            assert(out@ =~= decode_group(seq![c0, c1, c2, c3])->Some_0);
                        }
                        Some(out)
                    },
                    None => None,
                }
            } else {
                match (sym_value(c2), sym_value(c3)) {
                    (Some(v2), Some(v3)) => {
                        out.push((v1 & 15) << 4 | v2 >> 2);
                        out.push((v2 & 3) << 6 | v3);
                        proof {
                            assert(out@ =~= decode_group(seq![c0, c1, c2, c3])->Some_0);
                        }
                        Some(out)
                    },
                    _ => None,
                }
            }
        },
        _ => None,
    }
}

/// Decodes printable text back to bytes.
///
/// ASCII whitespace is removed first; the remainder must have a length
/// that is a multiple of four and consist of alphabet symbols with `=`
/// padding, else the decode fails with `EncodingError`.
pub fn decode_base64(input: &str) -> (r: Result<Vec<u8>, GatewayError>)
    ensures
        match r {
            Ok(v) => b64_decode(input.spec_bytes()) == Some(v@),
            Err(e) => b64_decode(input.spec_bytes()) is None && e is EncodingError,
        },
{
    let bytes = input.as_bytes();
    let n = bytes.len();
    let mut cleaned: Vec<u8> = Vec::new();
    let mut i: usize = 0;
    while i < n
        invariant
            n == bytes@.len(),
            i <= n,
            cleaned@ == strip_ws(bytes@.take(i as int)),
        decreases n - i,
    {
        let b = bytes[i];
        if !(b == 32 || b == 9 || b == 10 || b == 13 || b == 12) {
            cleaned.push(b);
        }
        proof {
            assert(bytes@.take(i + 1).drop_last() =~= bytes@.take(i as int));
        }
        i = i + 1;
    }
    proof {
        assert(bytes@.take(n as int) =~= bytes@);
    }
    let m = cleaned.len();
    if m % 4 != 0 {
        proof {
            assert(b64_decode_clean(cleaned@) is None);
        }
        return Err(GatewayError::EncodingError);
    }
    let mut out: Vec<u8> = Vec::new();
    let mut j: usize = 0;
    proof {
        assert(cleaned@.skip(0) =~= cleaned@);
        if b64_decode_clean(cleaned@) is Some {
            assert(out@ + b64_decode_clean(cleaned@)->Some_0 =~= b64_decode_clean(
                cleaned@,
            )->Some_0);
        }
    }
    while j < m
        invariant
            m == cleaned@.len(),
            m % 4 == 0,
            j <= m,
            j % 4 == 0,
            cleaned@ == strip_ws(input.spec_bytes()),
            b64_decode_clean(cleaned@) == (match b64_decode_clean(cleaned@.skip(j as int)) {
                Some(rest) => Some(out@ + rest),
                None => None::<Seq<u8>>,
            }),
        decreases m - j,
    {
        let ghost tail = cleaned@.skip(j as int);
        proof {
            assert(tail.take(4) =~= seq![
                cleaned@[j as int],
                cleaned@[j + 1],
                cleaned@[j + 2],
                cleaned@[j + 3],
            ]);
            assert(tail.skip(4) =~= cleaned@.skip(j + 4));
        }
        match decode_group_exec(cleaned[j], cleaned[j + 1], cleaned[j + 2], cleaned[j + 3]) {
            None => {
                return Err(GatewayError::EncodingError);
            },
            Some(mut bs) => {
                let ghost prev = out@;
                out.append(&mut bs);
                proof {
                    if b64_decode_clean(cleaned@.skip(j + 4)) is Some {
                        let rest = b64_decode_clean(cleaned@.skip(j + 4))->Some_0;
                        assert(prev + (decode_group(tail.take(4))->Some_0 + rest) =~= out@
                            + rest);
                    }
                }
                j = j + 4;
            },
        }
    }
    proof {
        assert(cleaned@.skip(m as int) =~= Seq::<u8>::empty());
        assert(out@ + Seq::<u8>::empty() =~= out@);
    }
    Ok(out)
}

/// An alphabet symbol is neither whitespace nor the padding byte.
proof fn lemma_symbol_not_ws(v: u8)
    ensures
        43 <= b64_symbol(v) < 128,
        b64_symbol(v) != pad_byte(),
        !is_codec_ws(b64_symbol(v)),
{
}

/// Symbol lookup inverts symbol formation on six-bit values.
proof fn lemma_value_symbol(v: u8)
    requires
        v < 64,
    ensures
        b64_value(b64_symbol(v)) == Some(v),
{
}

/// No byte of an encoding is whitespace.
proof fn lemma_encode_no_ws(data: Seq<u8>)
    ensures
        forall|i: int|
            0 <= i < b64_encode(data).len() ==> !is_codec_ws(#[trigger] b64_encode(data)[i]),
    decreases data.len(),
{
    if data.len() == 0 {
    } else if data.len() <= 3 {
        let g = encode_group(data);
        assert forall|i: int| 0 <= i < g.len() implies !is_codec_ws(g[i]) by {
            lemma_symbol_not_ws(data[0] >> 2);
            lemma_symbol_not_ws((data[0] & 3) << 4);
            if data.len() > 1 {
                lemma_symbol_not_ws((data[0] & 3) << 4 | data[1] >> 4);
                lemma_symbol_not_ws((data[1] & 15) << 2);
            }
            if data.len() > 2 {
                lemma_symbol_not_ws((data[1] & 15) << 2 | data[2] >> 6);
                lemma_symbol_not_ws(data[2] & 63);
            }
        }
    } else {
        lemma_encode_no_ws(data.skip(3));
        let g = encode_group(data.take(3));
        let rest = b64_encode(data.skip(3));
        assert forall|i: int| 0 <= i < b64_encode(data).len() implies !is_codec_ws(
            #[trigger] b64_encode(data)[i],
        ) by {
            lemma_encode_no_ws(data.take(3));
            if i < 4 {
                assert(b64_encode(data)[i] == b64_encode(data.take(3))[i]);
            } else {
                assert(b64_encode(data)[i] == rest[i - 4]);
            }
        }
    }
}

/// Stripping whitespace from a whitespace-free sequence changes nothing.
proof fn lemma_no_ws_id(s: Seq<u8>)
    requires
        forall|i: int| 0 <= i < s.len() ==> !is_codec_ws(#[trigger] s[i]),
    ensures
        strip_ws(s) == s,
    decreases s.len(),
{
    if s.len() > 0 {
        lemma_no_ws_id(s.drop_last());
        assert(strip_ws(s.drop_last()).push(s.last()) =~= s);
    }
}

/// Decoding one encoded group recovers the group's bytes.
proof fn lemma_decode_encode_group(g: Seq<u8>)
    requires
        1 <= g.len() <= 3,
    ensures
        decode_group(encode_group(g)) == Some(g),
{
    let a = g[0];
    lemma_six_bit_bounds(a, 0);
    lemma_symbol_not_ws(a >> 2);
        lemma_value_symbol(a >> 2);
    if g.len() == 1 {
        lemma_six_bit_bounds(a, 0);
        lemma_symbol_not_ws((a & 3) << 4);
        lemma_value_symbol((a & 3) << 4);
        assert((a >> 2) << 2 | (((a & 3) << 4) >> 4) == a) by (bit_vector);
        assert(decode_group(encode_group(g))->Some_0 =~= g);
    } else if g.len() == 2 {
        let b = g[1];
        lemma_six_bit_bounds(a, b);
        lemma_six_bit_bounds(b, 0);
        lemma_symbol_not_ws((a & 3) << 4 | b >> 4);
        lemma_value_symbol((a & 3) << 4 | b >> 4);
        lemma_symbol_not_ws((b & 15) << 2);
        lemma_value_symbol((b & 15) << 2);
        assert((a >> 2) << 2 | (((a & 3) << 4 | b >> 4) >> 4) == a && ((((a & 3) << 4 | b >> 4)
            & 15) << 4) | (((b & 15) << 2) >> 2) == b) by (bit_vector);
        assert(decode_group(encode_group(g))->Some_0 =~= g);
    } else {
        let b = g[1];
        let c = g[2];
        lemma_six_bit_bounds(a, b);
        lemma_six_bit_bounds(b, c);
        lemma_six_bit_bounds(c, 0);
        lemma_symbol_not_ws((a & 3) << 4 | b >> 4);
        lemma_value_symbol((a & 3) << 4 | b >> 4);
        lemma_symbol_not_ws((b & 15) << 2 | c >> 6);
        lemma_value_symbol((b & 15) << 2 | c >> 6);
        lemma_symbol_not_ws(c & 63);
        lemma_value_symbol(c & 63);
        assert((a >> 2) << 2 | (((a & 3) << 4 | b >> 4) >> 4) == a && ((((a & 3) << 4 | b >> 4)
            & 15) << 4) | (((b & 15) << 2 | c >> 6) >> 2) == b && ((((b & 15) << 2 | c >> 6) & 3)
            << 6) | (c & 63) == c) by (bit_vector);
        assert(decode_group(encode_group(g))->Some_0 =~= g);
    }
}

/// Decoding an encoding, before whitespace handling, recovers the bytes.
proof fn lemma_decode_clean_encode(data: Seq<u8>)
    ensures
        b64_decode_clean(b64_encode(data)) == Some(data),
    decreases data.len(),
{
    if data.len() == 0 {
        assert(b64_decode_clean(b64_encode(data))->Some_0 =~= data);
    } else if data.len() <= 3 {
        let s = encode_group(data);
        lemma_decode_encode_group(data);
        assert(s.len() == 4);
        assert(s.take(4) =~= s);
        assert(s.skip(4) =~= Seq::<u8>::empty());
        assert(b64_decode_clean(s.skip(4)) == Some(Seq::<u8>::empty()));
        assert(b64_decode_clean(s)->Some_0 =~= data);
    } else {
        let g = encode_group(data.take(3));
        let rest = b64_encode(data.skip(3));
        let s = g + rest;
        lemma_decode_clean_encode(data.skip(3));
        lemma_decode_encode_group(data.take(3));
        assert(g.len() == 4);
        assert(s.take(4) =~= g);
        assert(s.skip(4) =~= rest);
        assert(s.len() % 4 == 0);
        assert(data.take(3) + data.skip(3) =~= data);
        assert(b64_decode_clean(s)->Some_0 =~= data);
    }
}

/// The round-trip law: decoding an encoding yields the original bytes,
/// for every byte sequence.
pub proof fn lemma_decode_encode(data: Seq<u8>)
    ensures
        b64_decode(b64_encode(data)) == Some(data),
{
    lemma_encode_no_ws(data);
    lemma_no_ws_id(b64_encode(data));
    lemma_decode_clean_encode(data);
}

/// The canonical-form law: re-encoding the bytes recovered from any valid
/// input yields text that decodes to the same bytes.
pub proof fn lemma_recode_stable(s: Seq<u8>, b: Seq<u8>)
    requires
        b64_decode(s) == Some(b),
    ensures
        b64_decode(b64_encode(b)) == Some(b),
{
    lemma_decode_encode(b);
}

} // verus!
