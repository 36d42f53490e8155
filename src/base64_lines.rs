//! Base64 (RFC 4648, standard alphabet, padded) and its wrapping into lines
//! of 64 encoded characters.

use vstd::prelude::*;

verus! {

/// Number of raw bytes encoded on one line: 48 bytes give 64 characters.
pub const LINE_CHUNK: usize = 48;

/// The character (as an ASCII byte) of the standard alphabet for a six-bit value.
pub open spec fn b64_digit(v: u8) -> u8 {
    if v < 26 {
        (65 + v) as u8
    } else if v < 52 {
        (97 + (v - 26)) as u8
    } else if v < 62 {
        (48 + (v - 52)) as u8
    } else if v == 62 {
        43u8
    } else {
        47u8
    }
}

/// The padding character `=`.
pub open spec fn b64_pad() -> u8 {
    61u8
}

/// The four characters for three bytes.
pub open spec fn b64_quad(a: u8, b: u8, c: u8) -> Seq<u8> {
    seq![
        b64_digit(a >> 2),
        b64_digit(((a & 3) << 4) | (b >> 4)),
        b64_digit(((b & 15) << 2) | (c >> 6)),
        b64_digit(c & 63),
    ]
}

/// Padded standard base64 of a byte sequence.
pub open spec fn b64_encode(s: Seq<u8>) -> Seq<u8>
    decreases s.len(),
{
    if s.len() == 0 {
        seq![]
    } else if s.len() == 1 {
        seq![b64_digit(s[0] >> 2), b64_digit((s[0] & 3) << 4), b64_pad(), b64_pad()]
    } else if s.len() == 2 {
        seq![
            b64_digit(s[0] >> 2),
            b64_digit(((s[0] & 3) << 4) | (s[1] >> 4)),
            b64_digit((s[1] & 15) << 2),
            b64_pad(),
        ]
    } else {
        b64_quad(s[0], s[1], s[2]) + b64_encode(s.subrange(3, s.len() as int))
    }
}

/// The six-bit value of a character of the standard alphabet.
pub open spec fn b64_value(c: u8) -> u8 {
    if 65 <= c <= 90 {
        (c - 65) as u8
    } else if 97 <= c <= 122 {
        (c - 71) as u8
    } else if 48 <= c <= 57 {
        (c + 4) as u8
    } else if c == 43 {
        62u8
    } else {
        63u8
    }
}

/// The three bytes that four six-bit values carry.
pub open spec fn b64_unquad(v0: u8, v1: u8, v2: u8, v3: u8) -> Seq<u8> {
    seq![(v0 << 2) | (v1 >> 4), (v1 << 4) | (v2 >> 2), (v2 << 6) | v3]
}

/// Decoding of padded base64: each group of four characters gives three
/// bytes, fewer where it ends with padding.
pub open spec fn b64_decode(s: Seq<u8>) -> Seq<u8>
    decreases s.len(),
{
    if s.len() < 4 {
        seq![]
    } else {
        let bytes = b64_unquad(b64_value(s[0]), b64_value(s[1]), b64_value(s[2]), b64_value(s[3]));
        let group = if s[2] == b64_pad() {
            bytes.take(1)
        } else if s[3] == b64_pad() {
            bytes.take(2)
        } else {
            bytes
        };
        group + b64_decode(s.subrange(4, s.len() as int))
    }
}

/// Every six-bit value has a character of its own, which is not the padding.
pub proof fn lemma_digit_value(v: u8)
    requires
        v < 64,
    ensures
        b64_value(b64_digit(v)) == v,
        b64_digit(v) != b64_pad(),
{
}

/// The six-bit values of three bytes give the bytes back.
pub proof fn lemma_quad_bits(a: u8, b: u8, c: u8)
    ensures
        a >> 2 < 64,
        ((a & 3) << 4) | (b >> 4) < 64,
        ((b & 15) << 2) | (c >> 6) < 64,
        c & 63 < 64,
        (a & 3) << 4 < 64,
        (b & 15) << 2 < 64,
        b64_unquad(a >> 2, ((a & 3) << 4) | (b >> 4), ((b & 15) << 2) | (c >> 6), c & 63)
            =~= seq![a, b, c],
        ((a >> 2) << 2) | ((((a & 3) << 4) | (b >> 4)) >> 4) == a,
        ((((a & 3) << 4) | (b >> 4)) << 4) | (((b & 15) << 2) >> 2) == b,
        ((a >> 2) << 2) | (((a & 3) << 4) >> 4) == a,
{
    assert(a >> 2 < 64) by (bit_vector);
    assert(((a & 3) << 4) | (b >> 4) < 64) by (bit_vector);
    assert(((b & 15) << 2) | (c >> 6) < 64) by (bit_vector);
    assert(c & 63 < 64) by (bit_vector);
    assert((a & 3) << 4 < 64) by (bit_vector);
    assert((b & 15) << 2 < 64) by (bit_vector);
    assert(((a >> 2) << 2) | ((((a & 3) << 4) | (b >> 4)) >> 4) == a) by (bit_vector);
    assert(((((a & 3) << 4) | (b >> 4)) << 4) | ((((b & 15) << 2) | (c >> 6)) >> 2) == b)
        by (bit_vector);
    assert(((((b & 15) << 2) | (c >> 6)) << 6) | (c & 63) == c) by (bit_vector);
    assert(((((a & 3) << 4) | (b >> 4)) << 4) | (((b & 15) << 2) >> 2) == b) by (bit_vector);
    assert(((a >> 2) << 2) | (((a & 3) << 4) >> 4) == a) by (bit_vector);
}

/// Decoding undoes encoding.
pub proof fn lemma_decode_encode(s: Seq<u8>)
    ensures
        b64_decode(b64_encode(s)) == s,
    decreases s.len(),
{
    if s.len() == 0 {
    } else if s.len() == 1 {
        let (a, b, c) = (s[0], 0u8, 0u8);
        lemma_quad_bits(a, b, c);
        lemma_digit_value(a >> 2);
        lemma_digit_value((a & 3) << 4);
        let e = b64_encode(s);
        assert(e.subrange(4, 4) =~= Seq::<u8>::empty());
        assert(b64_decode(Seq::<u8>::empty()) == Seq::<u8>::empty());
        assert(e.len() == 4 && e[3] == b64_pad());
        let d = b64_decode(e);
        assert(d.len() == 1 && d[0] == a);
        assert(d =~= s);
    } else if s.len() == 2 {
        let (a, b, c) = (s[0], s[1], 0u8);
        lemma_quad_bits(a, b, c);
        lemma_digit_value(a >> 2);
        lemma_digit_value(((a & 3) << 4) | (b >> 4));
        lemma_digit_value((b & 15) << 2);
        let e = b64_encode(s);
        assert(e.subrange(4, 4) =~= Seq::<u8>::empty());
        assert(b64_decode(Seq::<u8>::empty()) == Seq::<u8>::empty());
        assert(e.len() == 4 && e[3] == b64_pad());
        let d = b64_decode(e);
        assert(d.len() == 2 && d[0] == a && d[1] == b);
        assert(d =~= s);
    } else {
        let (a, b, c) = (s[0], s[1], s[2]);
        let rest = s.subrange(3, s.len() as int);
        lemma_quad_bits(a, b, c);
        lemma_digit_value(a >> 2);
        lemma_digit_value(((a & 3) << 4) | (b >> 4));
        lemma_digit_value(((b & 15) << 2) | (c >> 6));
        lemma_digit_value(c & 63);
        lemma_decode_encode(rest);
        let e = b64_encode(s);
        assert(e == b64_quad(a, b, c) + b64_encode(rest));
        assert(e.subrange(4, e.len() as int) =~= b64_encode(rest));
        assert(b64_decode(e) =~= s);
    }
}

/// Relies on base64::encode (standard alphabet, with padding); the `String`
/// it returns is handed on as its bytes.
#[verifier::external_body]
fn encode_chunk(bytes: &[u8]) -> (r: Vec<u8>)
    ensures
        r@ == b64_encode(bytes@),
{
    base64::encode(bytes).into_bytes()
}

/// End of the `i`-th chunk of a payload of `n` bytes: every chunk but the last
/// holds `LINE_CHUNK` bytes, and the last one holds what is left (maybe nothing).
pub open spec fn chunk_end(n: int, i: int) -> int {
    if i < n / LINE_CHUNK as int {
        LINE_CHUNK * (i + 1)
    } else {
        n
    }
}

/// The encoded lines of a payload, without their terminators: one per full
/// chunk of `LINE_CHUNK` bytes, then one for the remainder, empty or not.
pub open spec fn wrapped_lines(p: Seq<u8>) -> Seq<Seq<u8>> {
    Seq::new(
        (p.len() / LINE_CHUNK as nat + 1) as nat,
        |i: int| b64_encode(p.subrange(LINE_CHUNK * i, chunk_end(p.len() as int, i))),
    )
}

/// Lines joined, each followed by a newline.
pub open spec fn terminated(lines: Seq<Seq<u8>>) -> Seq<u8>
    decreases lines.len(),
{
    if lines.len() == 0 {
        seq![]
    } else {
        terminated(lines.drop_last()) + lines.last() + seq![10u8]
    }
}

/// Chunk `i` is a full one exactly when it ends within the payload.
pub proof fn lemma_full_chunk(n: int, i: int)
    requires
        n >= 0,
        i >= -1,
    ensures
        i < n / LINE_CHUNK as int <==> LINE_CHUNK * (i + 1) <= n,
        LINE_CHUNK * (n / LINE_CHUNK as int) <= n,
{
    let q = n / 48;
    let r = n % 48;
    assert(n == 48 * q + r && 0 <= r < 48) by (nonlinear_arith)
        requires
            n >= 0,
            q == n / 48,
            r == n % 48,
    ;
    assert(i < q <==> 48 * (i + 1) <= n) by (nonlinear_arith)
        requires
            n == 48 * q + r,
            0 <= r < 48,
    ;
}

/// Decoded content of lines, concatenated in order.
pub open spec fn decode_lines(lines: Seq<Seq<u8>>) -> Seq<u8>
    decreases lines.len(),
{
    if lines.len() == 0 {
        seq![]
    } else {
        decode_lines(lines.drop_last()) + b64_decode(lines.last())
    }
}

/// Four characters for each started group of three bytes.
pub proof fn lemma_encode_len(s: Seq<u8>)
    ensures
        b64_encode(s).len() == 4 * ((s.len() + 2) / 3),
    decreases s.len(),
{
    if s.len() >= 3 {
        lemma_encode_len(s.subrange(3, s.len() as int));
    }
}

/// Shape of the wrapping of a payload of `LINE_CHUNK * k + r` bytes, with
/// `r < LINE_CHUNK`: it has `k + 1` lines, the first `k` of 64 characters;
/// the last line is empty when `r == 0`, and otherwise is not empty and
/// decodes to the final `r` bytes of the payload.
pub proof fn lemma_wrapped_shape(p: Seq<u8>)
    ensures
        wrapped_lines(p).len() == p.len() / LINE_CHUNK as nat + 1,
        forall|i: int|
            0 <= i < p.len() / LINE_CHUNK as nat ==> (#[trigger] wrapped_lines(p)[i]).len() == 64,
        p.len() % LINE_CHUNK as nat == 0 ==> wrapped_lines(p).last().len() == 0,
        p.len() % LINE_CHUNK as nat != 0 ==> {
            &&& wrapped_lines(p).last().len() > 0
            &&& b64_decode(wrapped_lines(p).last()) == p.subrange(
                p.len() - p.len() % LINE_CHUNK as nat,
                p.len() as int,
            )
        },
{
    let n = p.len() as int;
    let k = n / 48;
    lemma_full_chunk(n, k - 1);
    assert(n - n % 48 == 48 * k) by (nonlinear_arith)
        requires
            n >= 0,
            k == n / 48,
    ;
    assert forall|i: int| 0 <= i < k implies (#[trigger] wrapped_lines(p)[i]).len() == 64 by {
        lemma_full_chunk(n, i);
        lemma_encode_len(p.subrange(48 * i, 48 * (i + 1)));
    }
    let last = p.subrange(48 * k, n);
    lemma_encode_len(last);
    lemma_decode_encode(last);
    assert(wrapped_lines(p).last() == b64_encode(last));
}

/// The lines of the first `m` chunks decode to the bytes of those chunks.
proof fn lemma_prefix_round_trip(p: Seq<u8>, m: int)
    requires
        0 <= m <= p.len() / LINE_CHUNK as nat + 1,
    ensures
        decode_lines(wrapped_lines(p).subrange(0, m)) == p.subrange(
            0,
            if m == 0 {
                0
            } else {
                chunk_end(p.len() as int, m - 1)
            },
        ),
    decreases m,
{
    let n = p.len() as int;
    let w = wrapped_lines(p);
    if m == 0 {
        assert(w.subrange(0, 0) =~= Seq::<Seq<u8>>::empty());
        assert(p.subrange(0, 0) =~= Seq::<u8>::empty());
    } else {
        lemma_prefix_round_trip(p, m - 1);
        lemma_full_chunk(n, m - 1);
        lemma_full_chunk(n, m - 2);
        let start = LINE_CHUNK * (m - 1);
        let end = chunk_end(n, m - 1);
        assert(m - 1 > 0 ==> chunk_end(n, m - 2) == start);
        lemma_decode_encode(p.subrange(start, end));
        assert(w.subrange(0, m).drop_last() =~= w.subrange(0, m - 1));
        assert(w.subrange(0, m).last() == b64_encode(p.subrange(start, end)));
        assert(p.subrange(0, start) + p.subrange(start, end) =~= p.subrange(0, end));
    }
}

/// Decoding the lines of a wrapping in order gives the payload back.
pub proof fn lemma_wrapped_round_trip(p: Seq<u8>)
    ensures
        decode_lines(wrapped_lines(p)) == p,
{
    let m = p.len() / LINE_CHUNK as nat + 1;
    lemma_prefix_round_trip(p, m as int);
    assert(wrapped_lines(p).subrange(0, m as int) =~= wrapped_lines(p));
    assert(p.subrange(0, p.len() as int) =~= p);
}

/// Encodes `payload` as base64 lines of at most 64 characters, one per
/// chunk of `LINE_CHUNK` bytes, always ending with the line of the remainder
/// (an empty line when the length is a multiple of `LINE_CHUNK`).
pub fn encode_wrapped(payload: &[u8]) -> (r: Vec<Vec<u8>>)
    ensures
        r@.len() == wrapped_lines(payload@).len(),
        forall|i: int| 0 <= i < r@.len() ==> #[trigger] r@[i]@ == wrapped_lines(payload@)[i],
{
    let limit = payload.len() / LINE_CHUNK;
    let mut lines: Vec<Vec<u8>> = Vec::new();
    let mut i: usize = 0;
    while i < limit
        invariant
            limit == payload@.len() / LINE_CHUNK as nat,
            payload@.len() <= usize::MAX,
            i <= limit,
            lines@.len() == i,
            forall|j: int| 0 <= j < i ==> #[trigger] lines@[j]@ == wrapped_lines(payload@)[j],
        decreases limit - i,
    {
        proof {
            lemma_full_chunk(payload@.len() as int, i as int);
        }
        let start = i * LINE_CHUNK;
        let end = (i + 1) * LINE_CHUNK;
        lines.push(encode_chunk(&payload[start..end]));
        i = i + 1;
    }
    proof {
        lemma_full_chunk(payload@.len() as int, limit - 1);
    }
    lines.push(encode_chunk(&payload[limit * LINE_CHUNK..payload.len()]));
    lines
}

/// Appends the wrapped base64 of `input` to `out`, each line followed by a
/// newline.
pub fn write_base64(out: &mut Vec<u8>, input: &[u8])
    ensures
        final(out)@ == old(out)@ + terminated(wrapped_lines(input@)),
{
    let lines = encode_wrapped(input);
    let mut i: usize = 0;
    while i < lines.len()
        invariant
            i <= lines@.len(),
            lines@.len() == wrapped_lines(input@).len(),
            forall|j: int| 0 <= j < lines@.len() ==> #[trigger] lines@[j]@ == wrapped_lines(input@)[j],
            out@ == old(out)@ + terminated(wrapped_lines(input@).subrange(0, i as int)),
        decreases lines@.len() - i,
    {
        let ghost before = out@;
        out.extend_from_slice(lines[i].as_slice());
        out.push(10u8);
        proof {
            let w = wrapped_lines(input@);
            assert(w.subrange(0, i + 1).drop_last() =~= w.subrange(0, i as int));
            assert(out@ =~= before + w[i as int] + seq![10u8]);
        }
        i = i + 1;
    }
    proof {
        assert(wrapped_lines(input@).subrange(0, lines@.len() as int) =~= wrapped_lines(input@));
    }
}

} // verus!
