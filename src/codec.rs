use vstd::prelude::*;

use crate::formats::Base64Format;
use crate::formats::ConvertError;

verus! {

/// The padding character `=`.
pub const PAD: u8 = 61;

/// The character, as an ASCII byte, with index `i` (below 64) in the alphabet of `f`.
pub open spec fn symbol(f: Base64Format, i: u8) -> u8 {
    if i < 26 {
        (65 + i) as u8
    } else if i < 52 {
        (71 + i) as u8
    } else if i < 62 {
        (i - 4) as u8
    } else if i == 62 {
        if f == Base64Format::Standard { 43u8 } else { 45u8 }
    } else {
        if f == Base64Format::Standard { 47u8 } else { 95u8 }
    }
}

/// The index of the character `c` in the alphabet of `f`, if `c` belongs to it.
pub open spec fn symbol_index(f: Base64Format, c: u8) -> Option<u8> {
    if 65 <= c <= 90 {
        Some((c - 65) as u8)
    } else if 97 <= c <= 122 {
        Some((c - 71) as u8)
    } else if 48 <= c <= 57 {
        Some((c + 4) as u8)
    } else if c == symbol(f, 62) {
        Some(62u8)
    } else if c == symbol(f, 63) {
        Some(63u8)
    } else {
        None
    }
}

pub open spec fn in_alphabet(f: Base64Format, c: u8) -> bool {
    symbol_index(f, c) is Some
}

/// Four characters for three bytes.
pub open spec fn encode_group(f: Base64Format, a: u8, b: u8, c: u8) -> Seq<u8> {
    seq![
        symbol(f, a >> 2),
        symbol(f, ((a & 3) << 4) | (b >> 4)),
        symbol(f, ((b & 15) << 2) | (c >> 6)),
        symbol(f, c & 63),
    ]
}

/// The characters for two final bytes: three symbols, and one `=` under `Standard`.
pub open spec fn encode_two(f: Base64Format, a: u8, b: u8) -> Seq<u8> {
    seq![symbol(f, a >> 2), symbol(f, ((a & 3) << 4) | (b >> 4)), symbol(f, (b & 15) << 2)]
        + if f == Base64Format::Standard { seq![PAD] } else { Seq::empty() }
}

/// The characters for one final byte: two symbols, and two `=` under `Standard`.
pub open spec fn encode_one(f: Base64Format, a: u8) -> Seq<u8> {
    seq![symbol(f, a >> 2), symbol(f, (a & 3) << 4)]
        + if f == Base64Format::Standard { seq![PAD, PAD] } else { Seq::empty() }
}

/// The base64 text of `b` under `f`, three bytes at a time.
pub open spec fn encoded(f: Base64Format, b: Seq<u8>) -> Seq<u8>
    decreases b.len(),
{
    if b.len() == 0 {
        Seq::empty()
    } else if b.len() == 1 {
        encode_one(f, b[0])
    } else if b.len() == 2 {
        encode_two(f, b[0], b[1])
    } else {
        encode_group(f, b[0], b[1], b[2]) + encoded(f, b.subrange(3, b.len() as int))
    }
}

/// The first of the bytes that symbol indices `w` and `x` carry.
pub open spec fn first_byte(w: u8, x: u8) -> u8 {
    ((w << 2) | (x >> 4)) as u8
}

/// The second of the bytes that symbol indices `x` and `y` carry.
pub open spec fn second_byte(x: u8, y: u8) -> u8 {
    (((x & 15) << 4) | (y >> 2)) as u8
}

/// The third of the bytes that symbol indices `y` and `z` carry.
pub open spec fn third_byte(y: u8, z: u8) -> u8 {
    (((y & 3) << 6) | z) as u8
}

/// Three bytes out of four characters of the alphabet.
pub open spec fn decode_quad(f: Base64Format, c0: u8, c1: u8, c2: u8, c3: u8) -> Option<Seq<u8>> {
    match (symbol_index(f, c0), symbol_index(f, c1), symbol_index(f, c2), symbol_index(f, c3)) {
        (Some(w), Some(x), Some(y), Some(z)) => Some(
            seq![first_byte(w, x), second_byte(x, y), third_byte(y, z)],
        ),
        _ => None,
    }
}

/// Two bytes out of three final characters, whose unused low bits must be zero.
pub open spec fn decode_triple(f: Base64Format, c0: u8, c1: u8, c2: u8) -> Option<Seq<u8>> {
    match (symbol_index(f, c0), symbol_index(f, c1), symbol_index(f, c2)) {
        (Some(w), Some(x), Some(y)) => if y & 3 == 0 {
            Some(seq![first_byte(w, x), second_byte(x, y)])
        } else {
            None
        },
        _ => None,
    }
}

/// One byte out of two final characters, whose unused low bits must be zero.
pub open spec fn decode_pair(f: Base64Format, c0: u8, c1: u8) -> Option<Seq<u8>> {
    match (symbol_index(f, c0), symbol_index(f, c1)) {
        (Some(w), Some(x)) => if x & 15 == 0 {
            Some(seq![first_byte(w, x)])
        } else {
            None
        },
        _ => None,
    }
}

/// The bytes of the last group of one to four characters.
pub open spec fn decode_last(f: Base64Format, t: Seq<u8>) -> Option<Seq<u8>> {
    if f == Base64Format::Standard {
        if t.len() != 4 {
            None
        } else if t[3] != PAD {
            decode_quad(f, t[0], t[1], t[2], t[3])
        } else if t[2] != PAD {
            decode_triple(f, t[0], t[1], t[2])
        } else {
            decode_pair(f, t[0], t[1])
        }
    } else {
        if t.len() == 4 {
            decode_quad(f, t[0], t[1], t[2], t[3])
        } else if t.len() == 3 {
            decode_triple(f, t[0], t[1], t[2])
        } else if t.len() == 2 {
            decode_pair(f, t[0], t[1])
        } else {
            None
        }
    }
}

/// `p` followed by the bytes in `o`, if there are any.
pub open spec fn prepend(p: Seq<u8>, o: Option<Seq<u8>>) -> Option<Seq<u8>> {
    match o {
        Some(r) => Some(p + r),
        None => None,
    }
}

/// The bytes that the base64 text `t` stands for under `f`, or `None` where it
/// stands for none.
pub open spec fn decoded(f: Base64Format, t: Seq<u8>) -> Option<Seq<u8>>
    decreases t.len(),
{
    if t.len() == 0 {
        Some(Seq::empty())
    } else if t.len() <= 4 {
        decode_last(f, t)
    } else {
        match decode_quad(f, t[0], t[1], t[2], t[3]) {
            Some(g) => prepend(g, decoded(f, t.subrange(4, t.len() as int))),
            None => None,
        }
    }
}

fn symbol_of(f: Base64Format, i: u8) -> (r: u8)
    requires
        i < 64,
    ensures
        r == symbol(f, i),
{
    if i < 26 {
        65 + i
    } else if i < 52 {
        71 + i
    } else if i < 62 {
        i - 4
    } else if i == 62 {
        match f {
            Base64Format::Standard => 43,
            Base64Format::UrlSafe => 45,
        }
    } else {
        match f {
            Base64Format::Standard => 47,
            Base64Format::UrlSafe => 95,
        }
    }
}

fn index_of(f: Base64Format, c: u8) -> (r: Option<u8>)
    ensures
        r == symbol_index(f, c),
{
    if 65 <= c && c <= 90 {
        Some(c - 65)
    } else if 97 <= c && c <= 122 {
        Some(c - 71)
    } else if 48 <= c && c <= 57 {
        Some(c + 4)
    } else if c == symbol_of(f, 62) {
        Some(62)
    } else if c == symbol_of(f, 63) {
        Some(63)
    } else {
        None
    }
}

/// Encodes `data` as base64 text (ASCII bytes) in the alphabet of `format`.
pub fn encode(data: &[u8], format: Base64Format) -> (r: Vec<u8>)
    ensures
        r@ == encoded(format, data@),
{
    let n = data.len();
    let mut out: Vec<u8> = Vec::new();
    let mut i: usize = 0;
    assert(data@.subrange(0, n as int) =~= data@);
    assert(out@ + data@ =~= data@);
    assert(out@ + encoded(format, data@) =~= encoded(format, data@));
    while n - i >= 3
        invariant
            n == data@.len(),
            i <= n,
            encoded(format, data@) == out@ + encoded(format, data@.subrange(i as int, n as int)),
        decreases n - i,
    {
        let a = data[i];
        let b = data[i + 1];
        let c = data[i + 2];
        let ghost rest = data@.subrange(i as int, n as int);
        assert(rest.subrange(3, rest.len() as int) =~= data@.subrange(i + 3, n as int));
        let ghost prev = out@;
        assert((a >> 2) < 64 && (((a & 3) << 4) | (b >> 4)) < 64 && (((b & 15) << 2) | (c >> 6))
            < 64 && (c & 63) < 64) by (bit_vector);
        out.push(symbol_of(format, a >> 2));
        out.push(symbol_of(format, ((a & 3) << 4) | (b >> 4)));
        out.push(symbol_of(format, ((b & 15) << 2) | (c >> 6)));
        out.push(symbol_of(format, c & 63));
        assert(out@ =~= prev + encode_group(format, a, b, c));
        i = i + 3;
    }
    let ghost rest = data@.subrange(i as int, n as int);
    let ghost prev = out@;
    if n - i == 2 {
        let a = data[i];
        let b = data[i + 1];
        assert((a >> 2) < 64 && (((a & 3) << 4) | (b >> 4)) < 64 && ((b & 15) << 2) < 64)
            by (bit_vector);
        out.push(symbol_of(format, a >> 2));
        out.push(symbol_of(format, ((a & 3) << 4) | (b >> 4)));
        out.push(symbol_of(format, (b & 15) << 2));
        if format == Base64Format::Standard {
            out.push(PAD);
        }
        assert(out@ =~= prev + encode_two(format, a, b));
    } else if n - i == 1 {
        let a = data[i];
        assert((a >> 2) < 64 && ((a & 3) << 4) < 64) by (bit_vector);
        out.push(symbol_of(format, a >> 2));
        out.push(symbol_of(format, (a & 3) << 4));
        if format == Base64Format::Standard {
            out.push(PAD);
            out.push(PAD);
        }
        assert(out@ =~= prev + encode_one(format, a));
    } else {
        assert(out@ =~= prev + rest);
    }
    out
}

/// Appends the three bytes of four characters, or reports that one is outside the alphabet.
fn push_quad(f: Base64Format, out: &mut Vec<u8>, c0: u8, c1: u8, c2: u8, c3: u8) -> (ok: bool)
    ensures
        ok == decode_quad(f, c0, c1, c2, c3) is Some,
        ok ==> final(out)@ == old(out)@ + decode_quad(f, c0, c1, c2, c3)->Some_0,
{
    match (index_of(f, c0), index_of(f, c1), index_of(f, c2), index_of(f, c3)) {
        (Some(w), Some(x), Some(y), Some(z)) => {
            let ghost prev = out@;
            out.push(((w << 2) | (x >> 4)) as u8);
            out.push((((x & 15) << 4) | (y >> 2)) as u8);
            out.push((((y & 3) << 6) | z) as u8);
            assert(out@ =~= prev + decode_quad(f, c0, c1, c2, c3)->Some_0);
            true
        },
        _ => false,
    }
}

/// Appends the two bytes of three final characters, or reports that they carry none.
fn push_triple(f: Base64Format, out: &mut Vec<u8>, c0: u8, c1: u8, c2: u8) -> (ok: bool)
    ensures
        ok == decode_triple(f, c0, c1, c2) is Some,
        ok ==> final(out)@ == old(out)@ + decode_triple(f, c0, c1, c2)->Some_0,
{
    match (index_of(f, c0), index_of(f, c1), index_of(f, c2)) {
        (Some(w), Some(x), Some(y)) => {
            if y & 3 != 0 {
                return false;
            }
            let ghost prev = out@;
            out.push(((w << 2) | (x >> 4)) as u8);
            out.push((((x & 15) << 4) | (y >> 2)) as u8);
            assert(out@ =~= prev + decode_triple(f, c0, c1, c2)->Some_0);
            true
        },
        _ => false,
    }
}

/// Appends the byte of two final characters, or reports that they carry none.
fn push_pair(f: Base64Format, out: &mut Vec<u8>, c0: u8, c1: u8) -> (ok: bool)
    ensures
        ok == decode_pair(f, c0, c1) is Some,
        ok ==> final(out)@ == old(out)@ + decode_pair(f, c0, c1)->Some_0,
{
    match (index_of(f, c0), index_of(f, c1)) {
        (Some(w), Some(x)) => {
            if x & 15 != 0 {
                return false;
            }
            let ghost prev = out@;
            out.push(((w << 2) | (x >> 4)) as u8);
            assert(out@ =~= prev + decode_pair(f, c0, c1)->Some_0);
            true
        },
        _ => false,
    }
}

/// Decodes the base64 text `text` in the alphabet of `format`; fails with
/// `Decode` exactly where the text is the encoding of no bytes.
pub fn decode(text: &[u8], format: Base64Format) -> (r: Result<Vec<u8>, ConvertError>)
    ensures
        decoded(format, text@) is Some <==> r is Ok,
        r is Ok ==> decoded(format, text@) == Some(r->Ok_0@),
        r is Ok ==> encoded(format, r->Ok_0@) == text@,
        r is Err <==> forall|b: Seq<u8>| encoded(format, b) != text@,
        r is Err ==> r == Err::<Vec<u8>, ConvertError>(ConvertError::Decode),
{
    let r = decode_groups(text, format);
    proof {
        if r is Ok {
            lemma_decode_inverts_encode(format, text@, r->Ok_0@);
        } else {
            lemma_decode_inverts_encode(format, text@, Seq::empty());
        }
    }
    r
}

fn decode_groups(text: &[u8], format: Base64Format) -> (r: Result<Vec<u8>, ConvertError>)
    ensures
        decoded(format, text@) is Some <==> r is Ok,
        r is Ok ==> decoded(format, text@) == Some(r->Ok_0@),
        r is Err ==> r == Err::<Vec<u8>, ConvertError>(ConvertError::Decode),
{
    let n = text.len();
    let mut out: Vec<u8> = Vec::new();
    let mut i: usize = 0;
    assert(text@.subrange(0, n as int) =~= text@);
    assert(prepend(out@, decoded(format, text@)) =~= decoded(format, text@)) by {
        if decoded(format, text@) is Some {
            assert(out@ + decoded(format, text@)->Some_0 =~= decoded(format, text@)->Some_0);
        }
    }
    while n - i > 4
        invariant
            n == text@.len(),
            i <= n,
            decoded(format, text@) == prepend(out@, decoded(format, text@.subrange(i as int, n as int))),
        decreases n - i,
    {
        let ghost rest = text@.subrange(i as int, n as int);
        let ghost prev = out@;
        assert(rest.subrange(4, rest.len() as int) =~= text@.subrange(i + 4, n as int));
        if !push_quad(format, &mut out, text[i], text[i + 1], text[i + 2], text[i + 3]) {
            return Err(ConvertError::Decode);
        }
        let ghost g = decode_quad(format, rest[0], rest[1], rest[2], rest[3])->Some_0;
        let ghost tail = decoded(format, text@.subrange(i + 4, n as int));
        proof {
            if tail is Some {
                assert(prev + (g + tail->Some_0) =~= (prev + g) + tail->Some_0);
            }
        }
        i = i + 4;
    }
    let ghost rest = text@.subrange(i as int, n as int);
    let ghost prev = out@;
    let m = n - i;
    let ok = if m == 0 {
        true
    } else {
        match format {
            Base64Format::Standard => {
                if m != 4 {
                    false
                } else if text[i + 3] != PAD {
                    push_quad(format, &mut out, text[i], text[i + 1], text[i + 2], text[i + 3])
                } else if text[i + 2] != PAD {
                    push_triple(format, &mut out, text[i], text[i + 1], text[i + 2])
                } else {
                    push_pair(format, &mut out, text[i], text[i + 1])
                }
            },
            Base64Format::UrlSafe => {
                if m == 4 {
                    push_quad(format, &mut out, text[i], text[i + 1], text[i + 2], text[i + 3])
                } else if m == 3 {
                    push_triple(format, &mut out, text[i], text[i + 1], text[i + 2])
                } else if m == 2 {
                    push_pair(format, &mut out, text[i], text[i + 1])
                } else {
                    false
                }
            },
        }
    };
    if !ok {
        return Err(ConvertError::Decode);
    }
    assert(decoded(format, rest) == Some(out@.subrange(prev.len() as int, out@.len() as int)));
    assert(prev + out@.subrange(prev.len() as int, out@.len() as int) =~= out@);
    Ok(out)
}

proof fn lemma_symbol_index(f: Base64Format, i: u8)
    requires
        i < 64,
    ensures
        symbol_index(f, symbol(f, i)) == Some(i),
        symbol(f, i) != PAD,
{
}

proof fn lemma_group_bits(a: u8, b: u8, c: u8)
    ensures
        (a >> 2) < 64,
        (((a & 3) << 4) | (b >> 4)) < 64,
        (((b & 15) << 2) | (c >> 6)) < 64,
        (c & 63) < 64,
        ((b & 15) << 2) < 64,
        ((a & 3) << 4) < 64,
        (((b & 15) << 2) & 3) == 0,
        (((a & 3) << 4) & 15) == 0,
        first_byte(a >> 2, ((a & 3) << 4) | (b >> 4)) == a,
        second_byte(((a & 3) << 4) | (b >> 4), ((b & 15) << 2) | (c >> 6)) == b,
        third_byte(((b & 15) << 2) | (c >> 6), c & 63) == c,
        second_byte(((a & 3) << 4) | (b >> 4), (b & 15) << 2) == b,
        first_byte(a >> 2, (a & 3) << 4) == a,
{
    assert((a >> 2) < 64) by (bit_vector);
    assert((((a & 3) << 4) | (b >> 4)) < 64) by (bit_vector);
    assert((((b & 15) << 2) | (c >> 6)) < 64) by (bit_vector);
    assert((c & 63) < 64) by (bit_vector);
    assert(((b & 15) << 2) < 64) by (bit_vector);
    assert(((a & 3) << 4) < 64) by (bit_vector);
    assert((((b & 15) << 2) & 3) == 0) by (bit_vector);
    assert((((a & 3) << 4) & 15) == 0) by (bit_vector);
    assert((((a >> 2) << 2) | ((((a & 3) << 4) | (b >> 4)) >> 4)) as u8 == a) by (bit_vector);
    assert(((((((a & 3) << 4) | (b >> 4)) & 15) << 4) | ((((b & 15) << 2) | (c >> 6)) >> 2)) as u8
        == b) by (bit_vector);
    assert(((((((b & 15) << 2) | (c >> 6)) & 3) << 6) | (c & 63)) as u8 == c) by (bit_vector);
    assert(((((((a & 3) << 4) | (b >> 4)) & 15) << 4) | (((b & 15) << 2) >> 2)) as u8 == b)
        by (bit_vector);
    assert((((a >> 2) << 2) | (((a & 3) << 4) >> 4)) as u8 == a) by (bit_vector);
}

proof fn lemma_encoded_len(f: Base64Format, b: Seq<u8>)
    ensures
        b.len() > 0 ==> encoded(f, b).len() >= 2,
        f == Base64Format::Standard ==> encoded(f, b).len() % 4 == 0,
    decreases b.len(),
{
    if b.len() >= 3 {
        lemma_encoded_len(f, b.subrange(3, b.len() as int));
    }
}

proof fn lemma_group_decodes(f: Base64Format, a: u8, b: u8, c: u8)
    ensures
        ({
            let g = encode_group(f, a, b, c);
            decode_quad(f, g[0], g[1], g[2], g[3]) == Some(seq![a, b, c]) && g[3] != PAD
        }),
{
    lemma_group_bits(a, b, c);
    lemma_symbol_index(f, a >> 2);
    lemma_symbol_index(f, ((a & 3) << 4) | (b >> 4));
    lemma_symbol_index(f, ((b & 15) << 2) | (c >> 6));
    lemma_symbol_index(f, c & 63);
    let g = encode_group(f, a, b, c);
    assert(decode_quad(f, g[0], g[1], g[2], g[3])->Some_0 =~= seq![a, b, c]);
}

proof fn lemma_two_decodes(f: Base64Format, a: u8, b: u8)
    ensures
        decoded(f, encode_two(f, a, b)) == Some(seq![a, b]),
{
    lemma_group_bits(a, b, 0);
    lemma_symbol_index(f, a >> 2);
    lemma_symbol_index(f, ((a & 3) << 4) | (b >> 4));
    lemma_symbol_index(f, (b & 15) << 2);
    let t = encode_two(f, a, b);
    assert(decode_last(f, t)->Some_0 =~= seq![a, b]);
}

proof fn lemma_one_decodes(f: Base64Format, a: u8)
    ensures
        decoded(f, encode_one(f, a)) == Some(seq![a]),
{
    lemma_group_bits(a, 0, 0);
    lemma_symbol_index(f, a >> 2);
    lemma_symbol_index(f, (a & 3) << 4);
    let t = encode_one(f, a);
    assert(decode_last(f, t)->Some_0 =~= seq![a]);
}

/// Decoding the encoding of any bytes, under either variant, gives those bytes back.
pub proof fn lemma_round_trip(f: Base64Format, b: Seq<u8>)
    ensures
        decoded(f, encoded(f, b)) == Some(b),
    decreases b.len(),
{
    if b.len() == 0 {
    } else if b.len() == 1 {
        lemma_one_decodes(f, b[0]);
        assert(seq![b[0]] =~= b);
    } else if b.len() == 2 {
        lemma_two_decodes(f, b[0], b[1]);
        assert(seq![b[0], b[1]] =~= b);
    } else {
        let t = encoded(f, b);
        let rest = b.subrange(3, b.len() as int);
        let g = encode_group(f, b[0], b[1], b[2]);
        lemma_group_decodes(f, b[0], b[1], b[2]);
        lemma_encoded_len(f, rest);
        lemma_round_trip(f, rest);
        assert(t == g + encoded(f, rest));
        assert(t[0] == g[0] && t[1] == g[1] && t[2] == g[2] && t[3] == g[3]);
        let three = seq![b[0], b[1], b[2]];
        if rest.len() == 0 {
            assert(t =~= g);
            assert(three =~= b);
        } else {
            assert(t.subrange(4, t.len() as int) =~= encoded(f, rest));
            assert(three + rest =~= b);
        }
    }
}

/// Every character of an encoding is a symbol of the variant's alphabet, or the
/// padding `=` under `Standard`.
pub proof fn lemma_encoded_characters(f: Base64Format, b: Seq<u8>)
    ensures
        forall|i: int|
            0 <= i < encoded(f, b).len() ==> in_alphabet(f, #[trigger] encoded(f, b)[i]) || (f
                == Base64Format::Standard && encoded(f, b)[i] == PAD),
    decreases b.len(),
{
    if b.len() == 0 {
    } else if b.len() == 1 {
        lemma_group_bits(b[0], 0, 0);
        lemma_symbol_index(f, b[0] >> 2);
        lemma_symbol_index(f, (b[0] & 3) << 4);
    } else if b.len() == 2 {
        lemma_group_bits(b[0], b[1], 0);
        lemma_symbol_index(f, b[0] >> 2);
        lemma_symbol_index(f, ((b[0] & 3) << 4) | (b[1] >> 4));
        lemma_symbol_index(f, (b[1] & 15) << 2);
    } else {
        let rest = b.subrange(3, b.len() as int);
        lemma_group_bits(b[0], b[1], b[2]);
        lemma_symbol_index(f, b[0] >> 2);
        lemma_symbol_index(f, ((b[0] & 3) << 4) | (b[1] >> 4));
        lemma_symbol_index(f, ((b[1] & 15) << 2) | (b[2] >> 6));
        lemma_symbol_index(f, b[2] & 63);
        lemma_encoded_characters(f, rest);
        let g = encode_group(f, b[0], b[1], b[2]);
        assert forall|i: int| 0 <= i < encoded(f, b).len() implies in_alphabet(
            f,
            #[trigger] encoded(f, b)[i],
        ) || (f == Base64Format::Standard && encoded(f, b)[i] == PAD) by {
            if i >= 4 {
                assert(encoded(f, b)[i] == encoded(f, rest)[i - 4]);
            }
        }
    }
}

/// The URL-safe encoding of any bytes holds neither `+` nor `/`, and the
/// standard encoding holds neither `-` nor `_`.
pub proof fn lemma_alphabet_isolation(b: Seq<u8>)
    ensures
        forall|i: int|
            0 <= i < encoded(Base64Format::UrlSafe, b).len() ==> #[trigger] encoded(
                Base64Format::UrlSafe,
                b,
            )[i] != 43 && encoded(Base64Format::UrlSafe, b)[i] != 47,
        forall|i: int|
            0 <= i < encoded(Base64Format::Standard, b).len() ==> #[trigger] encoded(
                Base64Format::Standard,
                b,
            )[i] != 45 && encoded(Base64Format::Standard, b)[i] != 95,
{
    lemma_encoded_characters(Base64Format::UrlSafe, b);
    lemma_encoded_characters(Base64Format::Standard, b);
}

/// Text that holds a character outside the variant's alphabet (other than the
/// padding `=` of `Standard`) decodes to nothing.
pub proof fn lemma_foreign_character_rejected(f: Base64Format, t: Seq<u8>, i: int)
    requires
        0 <= i < t.len(),
        !in_alphabet(f, t[i]),
        !(f == Base64Format::Standard && t[i] == PAD),
    ensures
        decoded(f, t) is None,
    decreases t.len(),
{
    if t.len() > 4 && i >= 4 {
        let rest = t.subrange(4, t.len() as int);
        assert(rest[i - 4] == t[i]);
        lemma_foreign_character_rejected(f, rest, i - 4);
    }
}

proof fn lemma_index_symbol(f: Base64Format, c: u8)
    requires
        symbol_index(f, c) is Some,
    ensures
        symbol_index(f, c)->Some_0 < 64,
        symbol(f, symbol_index(f, c)->Some_0) == c,
{
}

proof fn lemma_quad_reencodes(f: Base64Format, c0: u8, c1: u8, c2: u8, c3: u8)
    requires
        decode_quad(f, c0, c1, c2, c3) is Some,
    ensures
        ({
            let g = decode_quad(f, c0, c1, c2, c3)->Some_0;
            encode_group(f, g[0], g[1], g[2]) == seq![c0, c1, c2, c3]
        }),
{
    lemma_index_symbol(f, c0);
    lemma_index_symbol(f, c1);
    lemma_index_symbol(f, c2);
    lemma_index_symbol(f, c3);
    let w = symbol_index(f, c0)->Some_0;
    let x = symbol_index(f, c1)->Some_0;
    let y = symbol_index(f, c2)->Some_0;
    let z = symbol_index(f, c3)->Some_0;
    let a = ((w << 2) | (x >> 4)) as u8;
    let b = (((x & 15) << 4) | (y >> 2)) as u8;
    let c = (((y & 3) << 6) | z) as u8;
    assert(a >> 2 == w) by (bit_vector)
        requires
            w < 64,
            x < 64,
            y < 64,
            z < 64,
            a == ((w << 2) | (x >> 4)) as u8,
    ;
    assert((((a & 3) << 4) | (b >> 4)) == x) by (bit_vector)
        requires
            w < 64,
            x < 64,
            y < 64,
            z < 64,
            a == ((w << 2) | (x >> 4)) as u8,
            b == (((x & 15) << 4) | (y >> 2)) as u8,
    ;
    assert((((b & 15) << 2) | (c >> 6)) == y) by (bit_vector)
        requires
            w < 64,
            x < 64,
            y < 64,
            z < 64,
            b == (((x & 15) << 4) | (y >> 2)) as u8,
            c == (((y & 3) << 6) | z) as u8,
    ;
    assert((c & 63) == z) by (bit_vector)
        requires
            w < 64,
            x < 64,
            y < 64,
            z < 64,
            c == (((y & 3) << 6) | z) as u8,
    ;
    assert(encode_group(f, a, b, c) =~= seq![c0, c1, c2, c3]);
}

proof fn lemma_triple_reencodes(f: Base64Format, c0: u8, c1: u8, c2: u8)
    requires
        decode_triple(f, c0, c1, c2) is Some,
    ensures
        ({
            let g = decode_triple(f, c0, c1, c2)->Some_0;
            &&& g.len() == 2
            &&& seq![
                symbol(f, g[0] >> 2),
                symbol(f, ((g[0] & 3) << 4) | (g[1] >> 4)),
                symbol(f, (g[1] & 15) << 2),
            ] == seq![c0, c1, c2]
        }),
{
    lemma_index_symbol(f, c0);
    lemma_index_symbol(f, c1);
    lemma_index_symbol(f, c2);
    let w = symbol_index(f, c0)->Some_0;
    let x = symbol_index(f, c1)->Some_0;
    let y = symbol_index(f, c2)->Some_0;
    let a = ((w << 2) | (x >> 4)) as u8;
    let b = (((x & 15) << 4) | (y >> 2)) as u8;
    assert(a >> 2 == w) by (bit_vector)
        requires
            w < 64,
            x < 64,
            y < 64,
            a == ((w << 2) | (x >> 4)) as u8,
    ;
    assert((((a & 3) << 4) | (b >> 4)) == x) by (bit_vector)
        requires
            w < 64,
            x < 64,
            y < 64,
            a == ((w << 2) | (x >> 4)) as u8,
            b == (((x & 15) << 4) | (y >> 2)) as u8,
    ;
    assert(((b & 15) << 2) == y) by (bit_vector)
        requires
            w < 64,
            x < 64,
            y < 64,
            y & 3 == 0,
            b == (((x & 15) << 4) | (y >> 2)) as u8,
    ;
    let g = decode_triple(f, c0, c1, c2)->Some_0;
    assert(seq![
        symbol(f, g[0] >> 2),
        symbol(f, ((g[0] & 3) << 4) | (g[1] >> 4)),
        symbol(f, (g[1] & 15) << 2),
    ] =~= seq![c0, c1, c2]);
}

proof fn lemma_pair_reencodes(f: Base64Format, c0: u8, c1: u8)
    requires
        decode_pair(f, c0, c1) is Some,
    ensures
        ({
            let g = decode_pair(f, c0, c1)->Some_0;
            &&& g.len() == 1
            &&& seq![symbol(f, g[0] >> 2), symbol(f, (g[0] & 3) << 4)] == seq![c0, c1]
        }),
{
    lemma_index_symbol(f, c0);
    lemma_index_symbol(f, c1);
    let w = symbol_index(f, c0)->Some_0;
    let x = symbol_index(f, c1)->Some_0;
    let a = ((w << 2) | (x >> 4)) as u8;
    assert(a >> 2 == w) by (bit_vector)
        requires
            w < 64,
            x < 64,
            a == ((w << 2) | (x >> 4)) as u8,
    ;
    assert(((a & 3) << 4) == x) by (bit_vector)
        requires
            w < 64,
            x < 64,
            x & 15 == 0,
            a == ((w << 2) | (x >> 4)) as u8,
    ;
    let g = decode_pair(f, c0, c1)->Some_0;
    assert(seq![symbol(f, g[0] >> 2), symbol(f, (g[0] & 3) << 4)] =~= seq![c0, c1]);
}

proof fn lemma_last_reencodes(f: Base64Format, t: Seq<u8>)
    requires
        1 <= t.len() <= 4,
        decode_last(f, t) is Some,
    ensures
        encoded(f, decode_last(f, t)->Some_0) == t,
{
    let b = decode_last(f, t)->Some_0;
    if f == Base64Format::Standard {
        if t[3] != PAD {
            lemma_quad_reencodes(f, t[0], t[1], t[2], t[3]);
            assert(b.subrange(3, 3) =~= Seq::<u8>::empty());
            assert(encoded(f, b.subrange(3, 3)) == Seq::<u8>::empty());
            assert(encoded(f, b) =~= t);
        } else if t[2] != PAD {
            lemma_triple_reencodes(f, t[0], t[1], t[2]);
            assert(encoded(f, b) =~= t);
        } else {
            lemma_pair_reencodes(f, t[0], t[1]);
            assert(encoded(f, b) =~= t);
        }
    } else {
        if t.len() == 4 {
            lemma_quad_reencodes(f, t[0], t[1], t[2], t[3]);
            assert(b.subrange(3, 3) =~= Seq::<u8>::empty());
            assert(encoded(f, b.subrange(3, 3)) == Seq::<u8>::empty());
            assert(encoded(f, b) =~= t);
        } else if t.len() == 3 {
            lemma_triple_reencodes(f, t[0], t[1], t[2]);
            assert(encoded(f, b) =~= t);
        } else {
            lemma_pair_reencodes(f, t[0], t[1]);
            assert(encoded(f, b) =~= t);
        }
    }
}

proof fn lemma_decoded_reencodes(f: Base64Format, t: Seq<u8>)
    requires
        decoded(f, t) is Some,
    ensures
        encoded(f, decoded(f, t)->Some_0) == t,
    decreases t.len(),
{
    if t.len() == 0 {
    } else if t.len() <= 4 {
        lemma_last_reencodes(f, t);
    } else {
        let rest = t.subrange(4, t.len() as int);
        let g = decode_quad(f, t[0], t[1], t[2], t[3])->Some_0;
        lemma_quad_reencodes(f, t[0], t[1], t[2], t[3]);
        lemma_decoded_reencodes(f, rest);
        let r = decoded(f, rest)->Some_0;
        let b = g + r;
        assert(b.subrange(3, b.len() as int) =~= r);
        assert(b[0] == g[0] && b[1] == g[1] && b[2] == g[2]);
        assert(encoded(f, b) =~= t);
    }
}

/// Text decodes to given bytes exactly when it is their encoding: decoding
/// fails on every text that is no encoding, and succeeds with the bytes encoded.
pub proof fn lemma_decode_inverts_encode(f: Base64Format, t: Seq<u8>, b: Seq<u8>)
    ensures
        decoded(f, t) == Some(b) <==> encoded(f, b) == t,
        decoded(f, t) is None <==> forall|c: Seq<u8>| encoded(f, c) != t,
{
    lemma_round_trip(f, b);
    if decoded(f, t) is Some {
        lemma_decoded_reencodes(f, t);
    }
    assert((decoded(f, t) is None) ==> forall|c: Seq<u8>| encoded(f, c) != t) by {
        assert forall|c: Seq<u8>| decoded(f, t) is None implies encoded(f, c) != t by {
            lemma_round_trip(f, c);
        }
    }
}

} // verus!
