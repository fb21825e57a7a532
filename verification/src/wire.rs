//! The chunk serializer: a flat, stable byte form for a whole chunk —
//! constant pool, then global-name table, then code buffer, each
//! length-prefixed — and the reader that rejects malformed input and
//! trailing unconsumed bytes.
//!
//! Every length prefix is a 64-bit little-endian count; a constant is a tag
//! byte (0 integer, 1 float bits, 2 string) followed by its payload; a
//! string is its byte length followed by its UTF-8 bytes.

use vstd::prelude::*;

use vstd::string::StrSliceExecFns;
use vstd::utf8::{
    decode_utf8, decode_utf8_encode_utf8, encode_utf8, encode_utf8_decode_utf8,
    encode_utf8_valid_utf8, valid_utf8,
};

use crate::chunk::{Chunk, ChunkView, Constant, ConstantView};

verus! {

/// Reading a serialized chunk failed.
#[derive(Debug, Clone, PartialEq, Eq)]
pub enum ChunkReadError {
    /// The bytes are not a structurally valid serialized chunk.
    Deserialize,
    /// A structurally valid chunk was read but these bytes trailed it.
    ExtraBytes(Vec<u8>),
}

/// The 8-byte little-endian encoding of a 64-bit value.
pub open spec fn le8(v: u64) -> Seq<u8> {
    seq![
        (v & 0xff) as u8,
        ((v >> 8) & 0xff) as u8,
        ((v >> 16) & 0xff) as u8,
        ((v >> 24) & 0xff) as u8,
        ((v >> 32) & 0xff) as u8,
        ((v >> 40) & 0xff) as u8,
        ((v >> 48) & 0xff) as u8,
        ((v >> 56) & 0xff) as u8,
    ]
}

/// The 64-bit value that 8 little-endian bytes encode.
pub open spec fn combine8(b0: u8, b1: u8, b2: u8, b3: u8, b4: u8, b5: u8, b6: u8, b7: u8) -> u64 {
    (b0 as u64) | ((b1 as u64) << 8) | ((b2 as u64) << 16) | ((b3 as u64) << 24) | ((b4 as u64)
        << 32) | ((b5 as u64) << 40) | ((b6 as u64) << 48) | ((b7 as u64) << 56)
}

/// Combining the bytes of an encoding recovers the encoded value.
pub proof fn lemma_combine_le8(v: u64)
    ensures
        combine8(
            le8(v)[0],
            le8(v)[1],
            le8(v)[2],
            le8(v)[3],
            le8(v)[4],
            le8(v)[5],
            le8(v)[6],
            le8(v)[7],
        ) == v,
{
    assert((((v & 0xff) as u8) as u64) | (((((v >> 8) & 0xff) as u8) as u64) << 8) | (((((v
        >> 16) & 0xff) as u8) as u64) << 16) | (((((v >> 24) & 0xff) as u8) as u64) << 24)
        | (((((v >> 32) & 0xff) as u8) as u64) << 32) | (((((v >> 40) & 0xff) as u8) as u64)
        << 40) | (((((v >> 48) & 0xff) as u8) as u64) << 48) | (((((v >> 56) & 0xff) as u8)
        as u64) << 56) == v) by (bit_vector);
}

/// Encoding the value that 8 bytes combine to gives back those bytes.
pub proof fn lemma_le8_combine(b0: u8, b1: u8, b2: u8, b3: u8, b4: u8, b5: u8, b6: u8, b7: u8)
    ensures
        le8(combine8(b0, b1, b2, b3, b4, b5, b6, b7)) == seq![b0, b1, b2, b3, b4, b5, b6, b7],
{
    let v = combine8(b0, b1, b2, b3, b4, b5, b6, b7);
    assert({
        let c = (b0 as u64) | ((b1 as u64) << 8) | ((b2 as u64) << 16) | ((b3 as u64) << 24) | (
            (b4 as u64) << 32) | ((b5 as u64) << 40) | ((b6 as u64) << 48) | ((b7 as u64) << 56);
        (c & 0xff) as u8 == b0 && ((c >> 8) & 0xff) as u8 == b1 && ((c >> 16) & 0xff) as u8 == b2
            && ((c >> 24) & 0xff) as u8 == b3 && ((c >> 32) & 0xff) as u8 == b4 && ((c >> 40)
            & 0xff) as u8 == b5 && ((c >> 48) & 0xff) as u8 == b6 && ((c >> 56) & 0xff) as u8 == b7
    }) by (bit_vector);
    assert(le8(v) =~= seq![b0, b1, b2, b3, b4, b5, b6, b7]);
}

/// Two values with the same encoding are equal.
pub proof fn lemma_le8_injective(a: u64, b: u64)
    requires
        le8(a) == le8(b),
    ensures
        a == b,
{
    lemma_combine_le8(a);
    lemma_combine_le8(b);
}

/// A string whose UTF-8 form is short enough for its byte length to be
/// written as a 64-bit prefix. Every string held in memory satisfies this;
/// the bound only matters to quantified statements over arbitrary
/// mathematical strings.
pub open spec fn str_wf(s: Seq<char>) -> bool {
    encode_utf8(s).len() < 0x10000000000000000
}

/// The serialized form of a string: its UTF-8 byte length, then its UTF-8
/// bytes.
pub open spec fn str_bytes(s: Seq<char>) -> Seq<u8> {
    le8(encode_utf8(s).len() as u64) + encode_utf8(s)
}

/// A constant whose serialized form round-trips (only its string payload,
/// if any, is constrained; see [`str_wf`]).
pub open spec fn const_wf(c: ConstantView) -> bool {
    match c {
        ConstantView::String(s) => str_wf(s),
        _ => true,
    }
}

/// The serialized form of one constant: a tag byte, then the payload.
pub open spec fn const_bytes(c: ConstantView) -> Seq<u8> {
    match c {
        ConstantView::Integer(n) => seq![0u8] + le8(n),
        ConstantView::Float(bits) => seq![1u8] + le8(bits),
        ConstantView::String(s) => seq![2u8] + str_bytes(s),
    }
}

/// The concatenated serialized forms of a constant pool's entries.
pub open spec fn consts_bytes(cs: Seq<ConstantView>) -> Seq<u8>
    decreases cs.len(),
{
    if cs.len() == 0 {
        Seq::empty()
    } else {
        const_bytes(cs[0]) + consts_bytes(cs.drop_first())
    }
}

/// Every entry of a constant pool is well formed.
pub open spec fn consts_wf(cs: Seq<ConstantView>) -> bool {
    forall|i: int| 0 <= i < cs.len() ==> const_wf(#[trigger] cs[i])
}

/// The concatenated serialized forms of a global-name table's entries.
pub open spec fn strs_bytes(gs: Seq<Seq<char>>) -> Seq<u8>
    decreases gs.len(),
{
    if gs.len() == 0 {
        Seq::empty()
    } else {
        str_bytes(gs[0]) + strs_bytes(gs.drop_first())
    }
}

/// Every name of a global table is well formed.
pub open spec fn strs_wf(gs: Seq<Seq<char>>) -> bool {
    forall|i: int| 0 <= i < gs.len() ==> str_wf(#[trigger] gs[i])
}

/// A chunk value whose serialized form round-trips: its collections are
/// short enough for 64-bit length prefixes and its strings are well
/// formed. Every chunk held in memory satisfies this.
pub open spec fn chunk_wf(c: ChunkView) -> bool {
    &&& c.constants.len() < 0x10000000000000000
    &&& c.globals.len() < 0x10000000000000000
    &&& c.code.len() < 0x10000000000000000
    &&& consts_wf(c.constants)
    &&& strs_wf(c.globals)
}

/// The serialized form of a whole chunk: the length-prefixed constant
/// pool, then the length-prefixed global-name table, then the
/// length-prefixed code buffer.
pub open spec fn serialized(c: ChunkView) -> Seq<u8> {
    le8(c.constants.len() as u64) + consts_bytes(c.constants) + le8(c.globals.len() as u64)
        + strs_bytes(c.globals) + le8(c.code.len() as u64) + c.code
}

/// Appending an entry to a pool appends its serialized form.
pub proof fn lemma_consts_bytes_push(cs: Seq<ConstantView>, c: ConstantView)
    ensures
        consts_bytes(cs.push(c)) == consts_bytes(cs) + const_bytes(c),
    decreases cs.len(),
{
    if cs.len() == 0 {
        assert(cs.push(c)[0] == c);
        assert(cs =~= Seq::<ConstantView>::empty());
        assert(cs.push(c).drop_first() =~= Seq::<ConstantView>::empty());
        assert(consts_bytes(Seq::<ConstantView>::empty()) == Seq::<u8>::empty());
        assert(consts_bytes(cs.push(c)) =~= consts_bytes(cs) + const_bytes(c));
    } else {
        assert(cs.push(c)[0] == cs[0]);
        assert(cs.push(c).drop_first() =~= cs.drop_first().push(c));
        lemma_consts_bytes_push(cs.drop_first(), c);
        assert(consts_bytes(cs.push(c)) == const_bytes(cs[0]) + consts_bytes(
            cs.drop_first().push(c),
        ));
        assert(consts_bytes(cs.push(c)) =~= consts_bytes(cs) + const_bytes(c));
    }
}

/// Appending a name to a table appends its serialized form.
pub proof fn lemma_strs_bytes_push(gs: Seq<Seq<char>>, s: Seq<char>)
    ensures
        strs_bytes(gs.push(s)) == strs_bytes(gs) + str_bytes(s),
    decreases gs.len(),
{
    if gs.len() == 0 {
        assert(gs.push(s)[0] == s);
        assert(gs =~= Seq::<Seq<char>>::empty());
        assert(gs.push(s).drop_first() =~= Seq::<Seq<char>>::empty());
        assert(strs_bytes(Seq::<Seq<char>>::empty()) == Seq::<u8>::empty());
        assert(strs_bytes(gs.push(s)) =~= strs_bytes(gs) + str_bytes(s));
    } else {
        assert(gs.push(s)[0] == gs[0]);
        assert(gs.push(s).drop_first() =~= gs.drop_first().push(s));
        lemma_strs_bytes_push(gs.drop_first(), s);
        assert(strs_bytes(gs.push(s)) == str_bytes(gs[0]) + strs_bytes(gs.drop_first().push(s)));
        assert(strs_bytes(gs.push(s)) =~= strs_bytes(gs) + str_bytes(s));
    }
}

/// A pool's serialized form splits at any entry boundary.
pub proof fn lemma_consts_bytes_split(cs: Seq<ConstantView>, i: int)
    requires
        0 <= i <= cs.len(),
    ensures
        consts_bytes(cs) == consts_bytes(cs.take(i)) + consts_bytes(cs.skip(i)),
    decreases i,
{
    if i == 0 {
        assert(cs.take(0) =~= Seq::<ConstantView>::empty());
        assert(cs.skip(0) =~= cs);
        assert(consts_bytes(cs) =~= consts_bytes(cs.take(0)) + consts_bytes(cs.skip(0)));
    } else {
        lemma_consts_bytes_split(cs.drop_first(), i - 1);
        assert(cs.take(i).drop_first() =~= cs.drop_first().take(i - 1));
        assert(cs.skip(i) =~= cs.drop_first().skip(i - 1));
        assert(consts_bytes(cs) =~= consts_bytes(cs.take(i)) + consts_bytes(cs.skip(i)));
    }
}

/// A table's serialized form splits at any entry boundary.
pub proof fn lemma_strs_bytes_split(gs: Seq<Seq<char>>, i: int)
    requires
        0 <= i <= gs.len(),
    ensures
        strs_bytes(gs) == strs_bytes(gs.take(i)) + strs_bytes(gs.skip(i)),
    decreases i,
{
    if i == 0 {
        assert(gs.take(0) =~= Seq::<Seq<char>>::empty());
        assert(gs.skip(0) =~= gs);
        assert(strs_bytes(gs) =~= strs_bytes(gs.take(0)) + strs_bytes(gs.skip(0)));
    } else {
        lemma_strs_bytes_split(gs.drop_first(), i - 1);
        assert(gs.take(i).drop_first() =~= gs.drop_first().take(i - 1));
        assert(gs.skip(i) =~= gs.drop_first().skip(i - 1));
        assert(strs_bytes(gs) =~= strs_bytes(gs.take(i)) + strs_bytes(gs.skip(i)));
    }
}

/// Parse an 8-byte little-endian value; succeeds exactly when 8 bytes are
/// left, and consumes exactly the encoding of the value it returns.
fn parse_u64(bytes: &[u8], pos: usize) -> (r: Option<(u64, usize)>)
    requires
        pos <= bytes@.len(),
    ensures
        r is Some <==> pos + 8 <= bytes@.len(),
        r matches Some((v, end)) ==> end == pos + 8 && bytes@.subrange(pos as int, end as int)
            == le8(v),
{
    if bytes.len() - pos < 8 {
        return None;
    }
    let b0 = bytes[pos];
    let b1 = bytes[pos + 1];
    let b2 = bytes[pos + 2];
    let b3 = bytes[pos + 3];
    let b4 = bytes[pos + 4];
    let b5 = bytes[pos + 5];
    let b6 = bytes[pos + 6];
    let b7 = bytes[pos + 7];
    let v: u64 = (b0 as u64) | ((b1 as u64) << 8) | ((b2 as u64) << 16) | ((b3 as u64) << 24) | (
        (b4 as u64) << 32) | ((b5 as u64) << 40) | ((b6 as u64) << 48) | ((b7 as u64) << 56);
    proof {
        lemma_le8_combine(b0, b1, b2, b3, b4, b5, b6, b7);
        assert(bytes@.subrange(pos as int, pos + 8) =~= seq![b0, b1, b2, b3, b4, b5, b6, b7]);
    }
    Some((v, pos + 8))
}

/// Copy `n` raw bytes; succeeds exactly when `n` bytes are left.
fn parse_raw(bytes: &[u8], pos: usize, n: u64) -> (r: Option<(Vec<u8>, usize)>)
    requires
        pos <= bytes@.len(),
    ensures
        r is Some <==> pos + n <= bytes@.len(),
        r matches Some((v, end)) ==> end == pos + n && v@ == bytes@.subrange(pos as int, pos + n),
{
    let rem = bytes.len() - pos;
    if n > rem as u64 {
        return None;
    }
    let m = n as usize;
    let mut out: Vec<u8> = Vec::new();
    let mut i: usize = 0;
    while i < m
        invariant
            i <= m,
            pos + m <= bytes@.len(),
            bytes@.len() <= usize::MAX,
            m == n,
            out@ == bytes@.subrange(pos as int, pos + i),
        decreases m - i,
    {
        out.push(bytes[pos + i]);
        proof {
            assert(out@ =~= bytes@.subrange(pos as int, pos + i + 1));
        }
        i += 1;
    }
    Some((out, pos + m))
}

/// What follows the code-length prefix in a serialized chunk: the code
/// bytes, then whatever trails the chunk.
pub open spec fn suffix_nb(c: ChunkView, rest: Seq<u8>) -> Seq<u8> {
    le8(c.code.len() as u64).add(c.code.add(rest))
}

/// What follows the constant pool in a serialized chunk: the global-name
/// table and the code buffer, each length-prefixed, then whatever trails
/// the chunk.
pub open spec fn suffix_ng(c: ChunkView, rest: Seq<u8>) -> Seq<u8> {
    le8(c.globals.len() as u64).add(strs_bytes(c.globals).add(suffix_nb(c, rest)))
}

/// When the input from `base` on is `a` followed by `b`, the next
/// `a.len()` bytes are exactly `a` and what follows them is exactly `b`.
pub proof fn lemma_peel(bytes: Seq<u8>, base: int, a: Seq<u8>, b: Seq<u8>)
    requires
        0 <= base <= bytes.len(),
        bytes.skip(base) == a.add(b),
    ensures
        base + a.len() <= bytes.len(),
        bytes.subrange(base, base + a.len()) == a,
        bytes.skip(base + a.len()) == b,
{
    assert(bytes.skip(base).len() == a.len() + b.len());
    assert forall|j: int| 0 <= j < a.len() implies bytes[base + j] == a[j] by {
        assert(bytes.skip(base)[j] == bytes[base + j]);
        assert(a.add(b)[j] == a[j]);
    }
    assert(bytes.subrange(base, base + a.len() as int) =~= a);
    assert forall|j: int| 0 <= j < b.len() implies bytes[base + a.len() + j] == b[j] by {
        assert(bytes.skip(base)[a.len() + j] == bytes[base + a.len() + j]);
        assert(a.add(b)[a.len() + j] == b[j]);
    }
    assert(bytes.skip(base + a.len() as int) =~= b);
}

/// A serialized chunk with a tail, regrouped so that the leading count,
/// the constant pool and everything after it can be peeled off in turn.
pub proof fn lemma_serialized_unfold(bytes: Seq<u8>, c: ChunkView, rest: Seq<u8>)
    requires
        bytes == serialized(c).add(rest),
    ensures
        bytes.len() >= 24,
        bytes.skip(0) == le8(c.constants.len() as u64).add(
            consts_bytes(c.constants).add(suffix_ng(c, rest)),
        ),
{
    assert(bytes.skip(0) =~= le8(c.constants.len() as u64).add(
        consts_bytes(c.constants).add(suffix_ng(c, rest)),
    ));
}

/// Six adjacent segments of the input concatenate to the whole span they
/// cover.
pub proof fn lemma_concat6(
    bytes: Seq<u8>,
    q1: int,
    q2: int,
    q3: int,
    q4: int,
    q5: int,
    q6: int,
    s1: Seq<u8>,
    s2: Seq<u8>,
    s3: Seq<u8>,
    s4: Seq<u8>,
    s5: Seq<u8>,
    s6: Seq<u8>,
)
    requires
        0 <= q1 <= q2 <= q3 <= q4 <= q5 <= q6 <= bytes.len(),
        s1 == bytes.subrange(0, q1),
        s2 == bytes.subrange(q1, q2),
        s3 == bytes.subrange(q2, q3),
        s4 == bytes.subrange(q3, q4),
        s5 == bytes.subrange(q4, q5),
        s6 == bytes.subrange(q5, q6),
    ensures
        bytes.subrange(0, q6) == s1 + s2 + s3 + s4 + s5 + s6,
{
    assert(bytes.subrange(0, q6) =~= s1 + s2 + s3 + s4 + s5 + s6);
}

/// Relies on `String::from_utf8` (std): it succeeds exactly on valid UTF-8
/// byte sequences, and the string it returns is the one those bytes
/// encode.
#[verifier::external_body]
fn string_from_utf8(bytes: Vec<u8>) -> (r: Option<String>)
    ensures
        r matches Some(s) ==> valid_utf8(bytes@) && s@ == decode_utf8(bytes@),
        valid_utf8(bytes@) ==> r is Some,
{
    String::from_utf8(bytes).ok()
}

/// Parse one length-prefixed UTF-8 string. On success the consumed bytes
/// are exactly the serialized form of the returned string; and whenever the
/// input from `pos` on starts with the serialized form of some string, the
/// parse succeeds and returns exactly that string.
#[verifier::rlimit(50)]
fn parse_string(bytes: &[u8], pos: usize) -> (r: Option<(String, usize)>)
    requires
        pos <= bytes@.len(),
    ensures
        r matches Some((s, end)) ==> pos <= end <= bytes@.len() && bytes@.subrange(
            pos as int,
            end as int,
        ) == str_bytes(s@) && str_wf(s@),
        forall|t: Seq<char>, rest: Seq<u8>|
            str_wf(t) && bytes@.skip(pos as int) == #[trigger] str_bytes(t).add(rest)
                ==> (r matches Some((s, end)) && s@ == t && end == pos + str_bytes(t).len()),
{
    let parsed_len = parse_u64(bytes, pos);
    if parsed_len.is_none() {
        proof {
            assert forall|t: Seq<char>, rest: Seq<u8>|
                str_wf(t) && bytes@.skip(pos as int) == #[trigger] str_bytes(t).add(
                    rest,
                ) implies false by {
                assert(bytes@.skip(pos as int).len() == bytes@.len() - pos);
                assert(str_bytes(t).len() >= 8);
            }
        }
        return None;
    }
    let (n, p1) = parsed_len.unwrap();
    let parsed_raw = parse_raw(bytes, p1, n);
    if parsed_raw.is_none() {
        proof {
            assert forall|t: Seq<char>, rest: Seq<u8>|
                str_wf(t) && bytes@.skip(pos as int) == #[trigger] str_bytes(t).add(
                    rest,
                ) implies false by {
                let full = str_bytes(t).add(rest);
                assert(bytes@.subrange(pos as int, pos + 8) =~= full.subrange(0, 8));
                assert(full.subrange(0, 8) =~= le8(encode_utf8(t).len() as u64));
                lemma_le8_injective(n, encode_utf8(t).len() as u64);
                assert(n as nat == encode_utf8(t).len());
                assert(bytes@.skip(pos as int).len() == bytes@.len() - pos);
                assert(full.len() == 8 + encode_utf8(t).len() + rest.len());
                assert(pos + 8 + n <= bytes@.len());
            }
        }
        return None;
    }
    let (raw, end) = parsed_raw.unwrap();
    let ghost raw_view = raw@;
    let parsed_str = string_from_utf8(raw);
    match parsed_str {
        Some(s) => {
            proof {
                decode_utf8_encode_utf8(raw_view);
                assert(encode_utf8(s@) == raw_view);
                assert(bytes@.subrange(pos as int, end as int) =~= bytes@.subrange(
                    pos as int,
                    p1 as int,
                ).add(bytes@.subrange(p1 as int, end as int)));
                assert(n as nat == encode_utf8(s@).len());
                assert(bytes@.subrange(pos as int, end as int) =~= str_bytes(s@));
                assert forall|t: Seq<char>, rest: Seq<u8>|
                    str_wf(t) && bytes@.skip(pos as int) == #[trigger] str_bytes(t).add(
                        rest,
                    ) implies s@ == t && end == pos + str_bytes(t).len() by {
                    let full = str_bytes(t).add(rest);
                    assert(bytes@.subrange(pos as int, pos + 8) =~= full.subrange(0, 8));
                    assert(full.subrange(0, 8) =~= le8(encode_utf8(t).len() as u64));
                    lemma_le8_injective(n, encode_utf8(t).len() as u64);
                    assert(raw_view =~= full.subrange(8, 8 + encode_utf8(t).len() as int));
                    assert(full.subrange(8, 8 + encode_utf8(t).len() as int) =~= encode_utf8(t));
                    encode_utf8_decode_utf8(t);
                }
            }
            Some((s, end))
        },
        None => {
            proof {
                assert forall|t: Seq<char>, rest: Seq<u8>|
                    str_wf(t) && bytes@.skip(pos as int) == #[trigger] str_bytes(t).add(
                        rest,
                    ) implies false by {
                    let full = str_bytes(t).add(rest);
                    assert(bytes@.subrange(pos as int, pos + 8) =~= full.subrange(0, 8));
                    assert(full.subrange(0, 8) =~= le8(encode_utf8(t).len() as u64));
                    lemma_le8_injective(n, encode_utf8(t).len() as u64);
                    assert(raw_view =~= full.subrange(8, 8 + encode_utf8(t).len() as int));
                    assert(full.subrange(8, 8 + encode_utf8(t).len() as int) =~= encode_utf8(t));
                    encode_utf8_valid_utf8(t);
                }
            }
            None
        },
    }
}

/// Parse one constant: a tag byte, then its payload. On success the
/// consumed bytes are exactly the serialized form of the returned constant;
/// and whenever the input from `pos` on starts with the serialized form of
/// some well-formed constant, the parse succeeds and returns exactly it.
#[verifier::rlimit(50)]
fn parse_const(bytes: &[u8], pos: usize) -> (r: Option<(Constant, usize)>)
    requires
        pos <= bytes@.len(),
    ensures
        r matches Some((c, end)) ==> pos < end <= bytes@.len() && bytes@.subrange(
            pos as int,
            end as int,
        ) == const_bytes(c@) && const_wf(c@),
        forall|v: ConstantView, rest: Seq<u8>|
            const_wf(v) && bytes@.skip(pos as int) == #[trigger] const_bytes(v).add(rest)
                ==> (r matches Some((c, end)) && c@ == v && end == pos + const_bytes(v).len()),
{
    if pos == bytes.len() {
        proof {
            assert forall|v: ConstantView, rest: Seq<u8>|
                const_wf(v) && bytes@.skip(pos as int) == #[trigger] const_bytes(v).add(
                    rest,
                ) implies false by {
                assert(const_bytes(v).len() >= 1);
                assert(bytes@.skip(pos as int).len() == 0);
            }
        }
        return None;
    }
    let tag = bytes[pos];
    proof {
        assert forall|v: ConstantView, rest: Seq<u8>|
            const_wf(v) && bytes@.skip(pos as int) == #[trigger] const_bytes(v).add(
                rest,
            ) implies const_bytes(v)[0] == tag by {
            assert(const_bytes(v).add(rest)[0] == const_bytes(v)[0]);
            assert(bytes@.skip(pos as int)[0] == bytes@[pos as int]);
        }
    }
    if tag == 0 || tag == 1 {
        let parsed = parse_u64(bytes, pos + 1);
        if parsed.is_none() {
            proof {
                assert forall|v: ConstantView, rest: Seq<u8>|
                    const_wf(v) && bytes@.skip(pos as int) == #[trigger] const_bytes(v).add(
                        rest,
                    ) implies false by {
                    assert(const_bytes(v)[0] == tag);
                    assert(v is Integer || v is Float);
                    assert(const_bytes(v).len() == 9);
                    assert(bytes@.skip(pos as int).len() == bytes@.len() - pos);
                }
            }
            return None;
        }
        let (payload, end) = parsed.unwrap();
        let c = if tag == 0 {
            Constant::Integer(payload)
        } else {
            Constant::Float(payload)
        };
        proof {
            assert(bytes@.subrange(pos as int, end as int) =~= seq![tag].add(bytes@.subrange(
                pos + 1,
                end as int,
            )));
            assert(bytes@.subrange(pos as int, end as int) =~= const_bytes(c@));
            assert forall|v: ConstantView, rest: Seq<u8>|
                const_wf(v) && bytes@.skip(pos as int) == #[trigger] const_bytes(v).add(
                    rest,
                ) implies c@ == v && end == pos + const_bytes(v).len() by {
                assert(const_bytes(v)[0] == tag);
                assert(v is Integer || v is Float);
                let payload_v: u64 = match v {
                    ConstantView::Integer(k) => k,
                    ConstantView::Float(k) => k,
                    ConstantView::String(_) => 0,
                };
                let full = const_bytes(v).add(rest);
                assert(bytes@.subrange(pos + 1, pos + 9) =~= full.subrange(1, 9));
                assert(full.subrange(1, 9) =~= le8(payload_v));
                lemma_le8_injective(payload, payload_v);
            }
        }
        Some((c, end))
    } else if tag == 2 {
        let parsed = parse_string(bytes, pos + 1);
        if parsed.is_none() {
            proof {
                assert forall|v: ConstantView, rest: Seq<u8>|
                    const_wf(v) && bytes@.skip(pos as int) == #[trigger] const_bytes(v).add(
                        rest,
                    ) implies false by {
                    assert(const_bytes(v)[0] == tag);
                    assert(v is String);
                    let t = v->String_0;
                    assert(const_bytes(v) == seq![2u8] + str_bytes(t));
                    assert(bytes@.skip(pos + 1) =~= bytes@.skip(pos as int).skip(1));
                    assert(bytes@.skip(pos as int).skip(1) =~= str_bytes(t).add(rest));
                    assert(bytes@.skip(pos + 1) == str_bytes(t).add(rest));
                }
            }
            return None;
        }
        let (s, end) = parsed.unwrap();
        let ghost sv = s@;
        let c = Constant::String(s);
        proof {
            assert(bytes@.subrange(pos as int, end as int) =~= seq![tag].add(bytes@.subrange(
                pos + 1,
                end as int,
            )));
            assert(bytes@.subrange(pos as int, end as int) =~= const_bytes(c@));
            assert forall|v: ConstantView, rest: Seq<u8>|
                const_wf(v) && bytes@.skip(pos as int) == #[trigger] const_bytes(v).add(
                    rest,
                ) implies c@ == v && end == pos + const_bytes(v).len() by {
                assert(const_bytes(v)[0] == tag);
                assert(v is String);
                let t = v->String_0;
                assert(const_bytes(v) == seq![2u8] + str_bytes(t));
                assert(bytes@.skip(pos + 1) =~= bytes@.skip(pos as int).skip(1));
                assert(bytes@.skip(pos as int).skip(1) =~= str_bytes(t).add(rest));
                assert(bytes@.skip(pos + 1) == str_bytes(t).add(rest));
            }
        }
        Some((c, end))
    } else {
        proof {
            assert forall|v: ConstantView, rest: Seq<u8>|
                const_wf(v) && bytes@.skip(pos as int) == #[trigger] const_bytes(v).add(
                    rest,
                ) implies false by {
                assert(const_bytes(v)[0] == tag);
            }
        }
        None
    }
}

/// Parse `k` consecutive constants. On success the consumed bytes are
/// exactly the serialized form of the returned pool; and whenever the input
/// from `pos` on starts with the serialized form of some well-formed pool
/// of `k` entries, the parse succeeds and returns exactly that pool.
fn parse_consts(bytes: &[u8], pos: usize, k: u64) -> (r: Option<(Vec<Constant>, usize)>)
    requires
        pos <= bytes@.len(),
    ensures
        r matches Some((cs, end)) ==> pos <= end <= bytes@.len() && cs@.len() == k
            && bytes@.subrange(pos as int, end as int) == consts_bytes(cs.deep_view())
            && consts_wf(cs.deep_view()),
        forall|vs: Seq<ConstantView>, rest: Seq<u8>|
            vs.len() == k && consts_wf(vs) && bytes@.skip(pos as int)
                == #[trigger] consts_bytes(vs).add(rest) ==> (r matches Some((cs, end))
                && cs.deep_view() == vs && end == pos + consts_bytes(vs).len()),
{
    let mut cs: Vec<Constant> = Vec::new();
    let mut cur: usize = pos;
    let mut i: u64 = 0;
    proof {
        assert(cs.deep_view() =~= Seq::<ConstantView>::empty());
        assert(bytes@.subrange(pos as int, pos as int) =~= consts_bytes(cs.deep_view()));
    }
    while i < k
        invariant
            i <= k,
            pos <= cur <= bytes@.len(),
            cs@.len() == i,
            bytes@.subrange(pos as int, cur as int) == consts_bytes(cs.deep_view()),
            consts_wf(cs.deep_view()),
            forall|vs: Seq<ConstantView>, rest: Seq<u8>|
                vs.len() == k && consts_wf(vs) && bytes@.skip(pos as int)
                    == #[trigger] consts_bytes(vs).add(rest) ==> cs.deep_view() == vs.take(
                    i as int,
                ) && cur == pos + consts_bytes(vs.take(i as int)).len(),
        decreases k - i,
    {
        let ghost prev_cs = cs.deep_view();
        let ghost prev_cur = cur;
        proof {
            assert forall|vs: Seq<ConstantView>, rest: Seq<u8>|
                vs.len() == k && consts_wf(vs) && bytes@.skip(pos as int)
                    == #[trigger] consts_bytes(vs).add(rest) implies bytes@.skip(prev_cur as int)
                == const_bytes(vs[i as int]).add(
                consts_bytes(vs.skip(i + 1)).add(rest),
            ) && const_wf(vs[i as int]) by {
                lemma_consts_bytes_split(vs, i as int);
                assert(vs.skip(i as int)[0] == vs[i as int]);
                assert(vs.skip(i as int).drop_first() =~= vs.skip(i + 1));
                assert(consts_bytes(vs.skip(i as int)) == const_bytes(vs[i as int])
                    + consts_bytes(vs.skip(i + 1)));
                let d = consts_bytes(vs.take(i as int)).len() as int;
                assert(bytes@.skip(prev_cur as int) =~= bytes@.skip(pos as int).skip(d));
                assert(consts_bytes(vs).add(rest).skip(d) =~= const_bytes(vs[i as int]).add(
                    consts_bytes(vs.skip(i + 1)).add(rest),
                ));
                assert(bytes@.skip(prev_cur as int) == const_bytes(vs[i as int]).add(
                    consts_bytes(vs.skip(i + 1)).add(rest),
                ));
            }
        }
        match parse_const(bytes, cur) {
            None => {
                proof {
                    assert forall|vs: Seq<ConstantView>, rest: Seq<u8>|
                        vs.len() == k && consts_wf(vs) && bytes@.skip(pos as int)
                            == #[trigger] consts_bytes(vs).add(rest) implies false by {
                        assert(bytes@.skip(prev_cur as int) == const_bytes(vs[i as int]).add(
                            consts_bytes(vs.skip(i + 1)).add(rest),
                        ));
                    }
                }
                return None;
            },
            Some((c, nxt)) => {
                let ghost cv = c.deep_view();
                cs.push(c);
                cur = nxt;
                proof {
                    assert(cs.deep_view() =~= prev_cs.push(cv));
                    lemma_consts_bytes_push(prev_cs, cv);
                    assert(bytes@.subrange(pos as int, cur as int) =~= bytes@.subrange(
                        pos as int,
                        prev_cur as int,
                    ).add(bytes@.subrange(prev_cur as int, cur as int)));
                    assert forall|vs: Seq<ConstantView>, rest: Seq<u8>|
                        vs.len() == k && consts_wf(vs) && bytes@.skip(pos as int)
                            == #[trigger] consts_bytes(vs).add(rest) implies cs.deep_view()
                        == vs.take(i + 1) && cur == pos + consts_bytes(vs.take(i + 1)).len() by {
                        assert(bytes@.skip(prev_cur as int) == const_bytes(vs[i as int]).add(
                            consts_bytes(vs.skip(i + 1)).add(rest),
                        ));
                        assert(cv == vs[i as int]);
                        assert(vs.take(i + 1) =~= vs.take(i as int).push(vs[i as int]));
                        lemma_consts_bytes_push(vs.take(i as int), vs[i as int]);
                    }
                }
                i = i + 1;
            },
        }
    }
    proof {
        assert forall|vs: Seq<ConstantView>, rest: Seq<u8>|
            vs.len() == k && consts_wf(vs) && bytes@.skip(pos as int)
                == #[trigger] consts_bytes(vs).add(rest) implies cs.deep_view() == vs && cur == pos
            + consts_bytes(vs).len() by {
            assert(vs.take(k as int) =~= vs);
        }
    }
    Some((cs, cur))
}

/// Parse `k` consecutive length-prefixed names. Same contract shape as
/// [`parse_consts`], over the global-name table.
fn parse_strs(bytes: &[u8], pos: usize, k: u64) -> (r: Option<(Vec<String>, usize)>)
    requires
        pos <= bytes@.len(),
    ensures
        r matches Some((gs, end)) ==> pos <= end <= bytes@.len() && gs@.len() == k
            && bytes@.subrange(pos as int, end as int) == strs_bytes(gs.deep_view()) && strs_wf(
            gs.deep_view(),
        ),
        forall|vs: Seq<Seq<char>>, rest: Seq<u8>|
            vs.len() == k && strs_wf(vs) && bytes@.skip(pos as int) == #[trigger] strs_bytes(
                vs,
            ).add(rest) ==> (r matches Some((gs, end)) && gs.deep_view() == vs && end == pos
                + strs_bytes(vs).len()),
{
    let mut gs: Vec<String> = Vec::new();
    let mut cur: usize = pos;
    let mut i: u64 = 0;
    proof {
        assert(gs.deep_view() =~= Seq::<Seq<char>>::empty());
        assert(bytes@.subrange(pos as int, pos as int) =~= strs_bytes(gs.deep_view()));
    }
    while i < k
        invariant
            i <= k,
            pos <= cur <= bytes@.len(),
            gs@.len() == i,
            bytes@.subrange(pos as int, cur as int) == strs_bytes(gs.deep_view()),
            strs_wf(gs.deep_view()),
            forall|vs: Seq<Seq<char>>, rest: Seq<u8>|
                vs.len() == k && strs_wf(vs) && bytes@.skip(pos as int) == #[trigger] strs_bytes(
                    vs,
                ).add(rest) ==> gs.deep_view() == vs.take(i as int) && cur == pos + strs_bytes(
                    vs.take(i as int),
                ).len(),
        decreases k - i,
    {
        let ghost prev_gs = gs.deep_view();
        let ghost prev_cur = cur;
        proof {
            assert forall|vs: Seq<Seq<char>>, rest: Seq<u8>|
                vs.len() == k && strs_wf(vs) && bytes@.skip(pos as int) == #[trigger] strs_bytes(
                    vs,
                ).add(rest) implies bytes@.skip(prev_cur as int) == str_bytes(vs[i as int]).add(
                strs_bytes(vs.skip(i + 1)).add(rest),
            ) && str_wf(vs[i as int]) by {
                lemma_strs_bytes_split(vs, i as int);
                assert(vs.skip(i as int)[0] == vs[i as int]);
                assert(vs.skip(i as int).drop_first() =~= vs.skip(i + 1));
                assert(strs_bytes(vs.skip(i as int)) == str_bytes(vs[i as int]) + strs_bytes(
                    vs.skip(i + 1),
                ));
                let d = strs_bytes(vs.take(i as int)).len() as int;
                assert(bytes@.skip(prev_cur as int) =~= bytes@.skip(pos as int).skip(d));
                assert(strs_bytes(vs).add(rest).skip(d) =~= str_bytes(vs[i as int]).add(
                    strs_bytes(vs.skip(i + 1)).add(rest),
                ));
                assert(bytes@.skip(prev_cur as int) == str_bytes(vs[i as int]).add(
                    strs_bytes(vs.skip(i + 1)).add(rest),
                ));
            }
        }
        match parse_string(bytes, cur) {
            None => {
                proof {
                    assert forall|vs: Seq<Seq<char>>, rest: Seq<u8>|
                        vs.len() == k && strs_wf(vs) && bytes@.skip(pos as int)
                            == #[trigger] strs_bytes(vs).add(rest) implies false by {
                        assert(bytes@.skip(prev_cur as int) == str_bytes(vs[i as int]).add(
                            strs_bytes(vs.skip(i + 1)).add(rest),
                        ));
                    }
                }
                return None;
            },
            Some((s, nxt)) => {
                let ghost sv = s@;
                gs.push(s);
                cur = nxt;
                proof {
                    assert(gs.deep_view() =~= prev_gs.push(sv));
                    lemma_strs_bytes_push(prev_gs, sv);
                    assert(bytes@.subrange(pos as int, cur as int) =~= bytes@.subrange(
                        pos as int,
                        prev_cur as int,
                    ).add(bytes@.subrange(prev_cur as int, cur as int)));
                    assert forall|vs: Seq<Seq<char>>, rest: Seq<u8>|
                        vs.len() == k && strs_wf(vs) && bytes@.skip(pos as int)
                            == #[trigger] strs_bytes(vs).add(rest) implies gs.deep_view()
                        == vs.take(i + 1) && cur == pos + strs_bytes(vs.take(i + 1)).len() by {
                        assert(bytes@.skip(prev_cur as int) == str_bytes(vs[i as int]).add(
                            strs_bytes(vs.skip(i + 1)).add(rest),
                        ));
                        assert(sv == vs[i as int]);
                        assert(vs.take(i + 1) =~= vs.take(i as int).push(vs[i as int]));
                        lemma_strs_bytes_push(vs.take(i as int), vs[i as int]);
                    }
                }
                i = i + 1;
            },
        }
    }
    proof {
        assert forall|vs: Seq<Seq<char>>, rest: Seq<u8>|
            vs.len() == k && strs_wf(vs) && bytes@.skip(pos as int) == #[trigger] strs_bytes(
                vs,
            ).add(rest) implies gs.deep_view() == vs && cur == pos + strs_bytes(vs).len() by {
            assert(vs.take(k as int) =~= vs);
        }
    }
    Some((gs, cur))
}

/// Append the little-endian encoding of `v`.
fn push_u64(out: &mut Vec<u8>, v: u64)
    ensures
        final(out)@ == old(out)@ + le8(v),
{
    out.push((v & 0xff) as u8);
    out.push(((v >> 8) & 0xff) as u8);
    out.push(((v >> 16) & 0xff) as u8);
    out.push(((v >> 24) & 0xff) as u8);
    out.push(((v >> 32) & 0xff) as u8);
    out.push(((v >> 40) & 0xff) as u8);
    out.push(((v >> 48) & 0xff) as u8);
    out.push(((v >> 56) & 0xff) as u8);
    proof {
        assert(out@ =~= old(out)@ + le8(v));
    }
}

/// Append the serialized form of a string.
fn push_str(out: &mut Vec<u8>, s: &String)
    ensures
        final(out)@ == old(out)@ + str_bytes(s@),
        str_wf(s@),
{
    let mut bytes = s.as_str().as_bytes_vec();
    push_u64(out, bytes.len() as u64);
    out.append(&mut bytes);
    proof {
        assert(out@ =~= old(out)@ + str_bytes(s@));
    }
}

/// Append the serialized form of one constant.
fn push_const(out: &mut Vec<u8>, c: &Constant)
    ensures
        final(out)@ == old(out)@ + const_bytes(c@),
        const_wf(c@),
{
    match c {
        Constant::Integer(n) => {
            out.push(0);
            push_u64(out, *n);
        },
        Constant::Float(bits) => {
            out.push(1);
            push_u64(out, *bits);
        },
        Constant::String(s) => {
            out.push(2);
            push_str(out, s);
        },
    }
    proof {
        assert(out@ =~= old(out)@ + const_bytes(c@));
    }
}

impl Chunk {
    /// Serialize this chunk to its flat byte form: constants, then
    /// globals, then code, each length-prefixed. Reading the result back
    /// yields an equal chunk ([`Chunk::read`]).
    pub fn write(&self) -> (out: Vec<u8>)
        ensures
            chunk_wf(self@),
            out@ == serialized(self@),
    {
        let mut out: Vec<u8> = Vec::new();

        push_u64(&mut out, self.constants.len() as u64);
        let ghost pool_prefix = out@;
        let mut i: usize = 0;
        while i < self.constants.len()
            invariant
                i <= self.constants@.len(),
                self.constants@.len() < 0x10000000000000000,
                pool_prefix == le8(self@.constants.len() as u64),
                consts_wf(self@.constants.take(i as int)),
                out@ == pool_prefix + consts_bytes(self@.constants.take(i as int)),
            decreases self.constants@.len() - i,
        {
            push_const(&mut out, &self.constants[i]);
            proof {
                assert(self@.constants.take(i + 1) =~= self@.constants.take(i as int).push(
                    self@.constants[i as int],
                ));
                lemma_consts_bytes_push(self@.constants.take(i as int), self@.constants[i as int]);
                assert(consts_wf(self@.constants.take(i + 1)));
            }
            i += 1;
        }
        proof {
            assert(self@.constants.take(self.constants@.len() as int) =~= self@.constants);
        }

        push_u64(&mut out, self.globals.len() as u64);
        let ghost table_prefix = out@;
        let mut g: usize = 0;
        while g < self.globals.len()
            invariant
                g <= self.globals@.len(),
                self.globals@.len() < 0x10000000000000000,
                table_prefix == pool_prefix + consts_bytes(self@.constants) + le8(
                    self@.globals.len() as u64,
                ),
                strs_wf(self@.globals.take(g as int)),
                out@ == table_prefix + strs_bytes(self@.globals.take(g as int)),
            decreases self.globals@.len() - g,
        {
            push_str(&mut out, &self.globals[g]);
            proof {
                assert(self@.globals.take(g + 1) =~= self@.globals.take(g as int).push(
                    self@.globals[g as int],
                ));
                lemma_strs_bytes_push(self@.globals.take(g as int), self@.globals[g as int]);
                assert(strs_wf(self@.globals.take(g + 1)));
            }
            g += 1;
        }
        proof {
            assert(self@.globals.take(self.globals@.len() as int) =~= self@.globals);
        }

        push_u64(&mut out, self.code.len() as u64);
        let ghost code_prefix = out@;
        let mut b: usize = 0;
        while b < self.code.len()
            invariant
                b <= self.code@.len(),
                code_prefix == table_prefix + strs_bytes(self@.globals) + le8(
                    self@.code.len() as u64,
                ),
                out@ == code_prefix + self@.code.take(b as int),
            decreases self.code@.len() - b,
        {
            out.push(self.code[b]);
            proof {
                assert(self@.code.take(b + 1) =~= self@.code.take(b as int).push(
                    self@.code[b as int],
                ));
                assert(out@ =~= code_prefix + self@.code.take(b + 1));
            }
            b += 1;
        }
        proof {
            assert(self@.code.take(self.code@.len() as int) =~= self@.code);
            assert(out@ =~= serialized(self@));
        }
        out
    }


    /// Deserialize a chunk from its flat byte form and reject what does
    /// not parse. Exactly the inputs of the form `serialized(c) + extra`
    /// (for a well-formed chunk value `c`) get past the structural parse:
    /// with nothing extra the chunk `c` itself is returned, and any
    /// non-empty tail is rejected as `ExtraBytes` holding exactly that
    /// tail. Every other input is rejected as `Deserialize`.
    #[verifier::rlimit(100)]
    pub fn read(bytes: &[u8]) -> (r: Result<Chunk, ChunkReadError>)
        ensures
            r matches Ok(c) ==> chunk_wf(c@) && bytes@ == serialized(c@),
            r matches Err(ChunkReadError::ExtraBytes(extra)) ==> extra@.len() > 0 && (
            exists|c: ChunkView| chunk_wf(c) && bytes@ == #[trigger] serialized(c).add(extra@)),
            forall|c: ChunkView, rest: Seq<u8>|
                chunk_wf(c) && bytes@ == #[trigger] serialized(c).add(rest) ==> ((rest.len() == 0
                    ==> (r matches Ok(d) && d@ == c)) && (rest.len() > 0 ==> (r matches Err(
                    ChunkReadError::ExtraBytes(extra),
                ) && extra@ == rest))),
            r == Err::<Chunk, ChunkReadError>(ChunkReadError::Deserialize) ==> !(exists|
                c: ChunkView,
                rest: Seq<u8>,
            |
                chunk_wf(c) && bytes@ == #[trigger] serialized(c).add(rest)),
    {
        let parsed_nc = parse_u64(bytes, 0);
        if parsed_nc.is_none() {
            proof {
                assert forall|c: ChunkView, rest: Seq<u8>|
                    chunk_wf(c) && bytes@ == #[trigger] serialized(c).add(rest) implies false by {
                    lemma_serialized_unfold(bytes@, c, rest);
                }
            }
            return Err(ChunkReadError::Deserialize);
        }
        let (kc, p1) = parsed_nc.unwrap();
        proof {
            assert forall|c: ChunkView, rest: Seq<u8>|
                chunk_wf(c) && bytes@ == #[trigger] serialized(c).add(rest) implies c.constants.len()
                == kc as nat && bytes@.skip(8) == consts_bytes(c.constants).add(
                suffix_ng(c, rest),
            ) by {
                lemma_serialized_unfold(bytes@, c, rest);
                lemma_peel(
                    bytes@,
                    0,
                    le8(c.constants.len() as u64),
                    consts_bytes(c.constants).add(suffix_ng(c, rest)),
                );
                lemma_le8_injective(kc, c.constants.len() as u64);
            }
        }
        let parsed_cs = parse_consts(bytes, p1, kc);
        if parsed_cs.is_none() {
            proof {
                assert forall|c: ChunkView, rest: Seq<u8>|
                    chunk_wf(c) && bytes@ == #[trigger] serialized(c).add(rest) implies false by {
                    assert(bytes@.skip(8) == consts_bytes(c.constants).add(suffix_ng(c, rest)));
                }
            }
            return Err(ChunkReadError::Deserialize);
        }
        let (constants, p2) = parsed_cs.unwrap();
        let ghost cs_deep = constants.deep_view();
        proof {
            assert forall|c: ChunkView, rest: Seq<u8>|
                chunk_wf(c) && bytes@ == #[trigger] serialized(c).add(rest) implies cs_deep
                == c.constants && bytes@.skip(p2 as int) == suffix_ng(c, rest) by {
                assert(bytes@.skip(8) == consts_bytes(c.constants).add(suffix_ng(c, rest)));
                lemma_peel(bytes@, 8, consts_bytes(c.constants), suffix_ng(c, rest));
            }
        }
        let parsed_ng = parse_u64(bytes, p2);
        if parsed_ng.is_none() {
            proof {
                assert forall|c: ChunkView, rest: Seq<u8>|
                    chunk_wf(c) && bytes@ == #[trigger] serialized(c).add(rest) implies false by {
                    assert(bytes@.skip(p2 as int) == suffix_ng(c, rest));
                    assert(suffix_ng(c, rest).len() >= 8);
                }
            }
            return Err(ChunkReadError::Deserialize);
        }
        let (kg, p3) = parsed_ng.unwrap();
        proof {
            assert forall|c: ChunkView, rest: Seq<u8>|
                chunk_wf(c) && bytes@ == #[trigger] serialized(c).add(rest) implies c.globals.len()
                == kg as nat && bytes@.skip(p3 as int) == strs_bytes(c.globals).add(
                suffix_nb(c, rest),
            ) by {
                assert(bytes@.skip(p2 as int) == suffix_ng(c, rest));
                lemma_peel(
                    bytes@,
                    p2 as int,
                    le8(c.globals.len() as u64),
                    strs_bytes(c.globals).add(suffix_nb(c, rest)),
                );
                lemma_le8_injective(kg, c.globals.len() as u64);
            }
        }
        let parsed_gs = parse_strs(bytes, p3, kg);
        if parsed_gs.is_none() {
            proof {
                assert forall|c: ChunkView, rest: Seq<u8>|
                    chunk_wf(c) && bytes@ == #[trigger] serialized(c).add(rest) implies false by {
                    assert(bytes@.skip(p3 as int) == strs_bytes(c.globals).add(
                        suffix_nb(c, rest),
                    ));
                }
            }
            return Err(ChunkReadError::Deserialize);
        }
        let (globals, p4) = parsed_gs.unwrap();
        let ghost gs_deep = globals.deep_view();
        proof {
            assert forall|c: ChunkView, rest: Seq<u8>|
                chunk_wf(c) && bytes@ == #[trigger] serialized(c).add(rest) implies gs_deep
                == c.globals && bytes@.skip(p4 as int) == suffix_nb(c, rest) by {
                assert(bytes@.skip(p3 as int) == strs_bytes(c.globals).add(suffix_nb(c, rest)));
                lemma_peel(bytes@, p3 as int, strs_bytes(c.globals), suffix_nb(c, rest));
            }
        }
        let parsed_nb = parse_u64(bytes, p4);
        if parsed_nb.is_none() {
            proof {
                assert forall|c: ChunkView, rest: Seq<u8>|
                    chunk_wf(c) && bytes@ == #[trigger] serialized(c).add(rest) implies false by {
                    assert(bytes@.skip(p4 as int) == suffix_nb(c, rest));
                    assert(suffix_nb(c, rest).len() >= 8);
                }
            }
            return Err(ChunkReadError::Deserialize);
        }
        let (kb, p5) = parsed_nb.unwrap();
        proof {
            assert forall|c: ChunkView, rest: Seq<u8>|
                chunk_wf(c) && bytes@ == #[trigger] serialized(c).add(rest) implies c.code.len()
                == kb as nat && bytes@.skip(p5 as int) == c.code.add(rest) by {
                assert(bytes@.skip(p4 as int) == suffix_nb(c, rest));
                lemma_peel(bytes@, p4 as int, le8(c.code.len() as u64), c.code.add(rest));
                lemma_le8_injective(kb, c.code.len() as u64);
            }
        }
        let parsed_code = parse_raw(bytes, p5, kb);
        if parsed_code.is_none() {
            proof {
                assert forall|c: ChunkView, rest: Seq<u8>|
                    chunk_wf(c) && bytes@ == #[trigger] serialized(c).add(rest) implies false by {
                    assert(bytes@.skip(p5 as int) == c.code.add(rest));
                    assert(bytes@.skip(p5 as int).len() == bytes@.len() - p5);
                }
            }
            return Err(ChunkReadError::Deserialize);
        }
        let (code, p6) = parsed_code.unwrap();
        let ghost code_deep = code@;
        let chunk = Chunk { constants, globals, code };
        let ghost cv = chunk@;
        proof {
            assert(cv.constants == cs_deep && cv.globals == gs_deep && cv.code == code_deep);
            assert(cs_deep.len() == kc as nat && gs_deep.len() == kg as nat && code_deep.len()
                == kb as nat);
            lemma_concat6(
                bytes@,
                8,
                p2 as int,
                p3 as int,
                p4 as int,
                p5 as int,
                p6 as int,
                le8(kc),
                consts_bytes(cs_deep),
                le8(kg),
                strs_bytes(gs_deep),
                le8(kb),
                code_deep,
            );
            assert(le8(cv.constants.len() as u64) == le8(kc));
            assert(le8(cv.globals.len() as u64) == le8(kg));
            assert(le8(cv.code.len() as u64) == le8(kb));
            assert(bytes@.subrange(0, p6 as int) == serialized(cv));
            assert(chunk_wf(cv));
            assert forall|c: ChunkView, rest: Seq<u8>|
                chunk_wf(c) && bytes@ == #[trigger] serialized(c).add(rest) implies c == cv && rest
                == bytes@.skip(p6 as int) by {
                assert(bytes@.skip(p5 as int) == c.code.add(rest));
                lemma_peel(bytes@, p5 as int, c.code, rest);
                assert(code_deep =~= c.code);
                assert(c == cv);
                assert(rest == bytes@.skip(p6 as int));
            }
        }
        if p6 == bytes.len() {
            proof {
                assert(bytes@.subrange(0, p6 as int) =~= bytes@);
            }
            Ok(chunk)
        } else {
            let extra = vstd::slice::slice_to_vec(
                vstd::slice::slice_subrange(bytes, p6, bytes.len()),
            );
            proof {
                assert(extra@ =~= bytes@.skip(p6 as int));
                assert(bytes@ =~= serialized(cv).add(extra@));
            }
            Err(ChunkReadError::ExtraBytes(extra))
        }
    }

    /// The serialization round trip, stated as a verified fact: reading
    /// back the bytes that [`Chunk::write`] produced always succeeds and
    /// yields a chunk equal to the one written, whatever the chunk holds.
    pub fn write_then_read(&self) -> (r: Chunk)
        ensures
            r@ == self@,
    {
        let bytes = self.write();
        proof {
            assert(bytes@ =~= serialized(self@).add(Seq::<u8>::empty()));
        }
        match Chunk::read(bytes.as_slice()) {
            Ok(chunk) => chunk,
            Err(_) => {
                proof {
                    assert(false);
                }
                Chunk::default()
            },
        }
    }

    /// Trailing-byte rejection, stated as a verified fact: appending any
    /// non-empty suffix to a chunk's serialized bytes makes [`Chunk::read`]
    /// fail with `ExtraBytes` holding exactly that suffix.
    pub fn write_with_trailing(&self, suffix: &Vec<u8>) -> (r: Result<Chunk, ChunkReadError>)
        requires
            suffix@.len() > 0,
        ensures
            r matches Err(ChunkReadError::ExtraBytes(extra)) && extra@ == suffix@,
    {
        let mut bytes = self.write();
        let mut i: usize = 0;
        while i < suffix.len()
            invariant
                i <= suffix@.len(),
                bytes@ == serialized(self@) + suffix@.take(i as int),
            decreases suffix@.len() - i,
        {
            bytes.push(suffix[i]);
            proof {
                assert(suffix@.take(i + 1) =~= suffix@.take(i as int).push(suffix@[i as int]));
                assert(bytes@ =~= serialized(self@) + suffix@.take(i + 1));
            }
            i += 1;
        }
        proof {
            assert(suffix@.take(suffix@.len() as int) =~= suffix@);
            assert(bytes@ =~= serialized(self@).add(suffix@));
        }
        Chunk::read(bytes.as_slice())
    }
}

} // verus!
