//! Byte encodings for the store: fixed-width big-endian integers whose
//! byte order agrees with their numeric order, and a length-prefixed,
//! self-describing encoding of events that round-trips exactly.

use vstd::prelude::*;

verus! {

/// The eight bytes of `x`, most significant first.
pub open spec fn spec_be64(x: u64) -> Seq<u8> {
    seq![
        (x >> 56) as u8,
        (x >> 48) as u8,
        (x >> 40) as u8,
        (x >> 32) as u8,
        (x >> 24) as u8,
        (x >> 16) as u8,
        (x >> 8) as u8,
        x as u8,
    ]
}

/// The value read back from eight big-endian bytes.
pub open spec fn spec_be64_val(b: Seq<u8>) -> u64
    recommends
        b.len() == 8,
{
    (((b[0] as u64) << 56) | ((b[1] as u64) << 48) | ((b[2] as u64) << 40) | ((b[3] as u64)
        << 32) | ((b[4] as u64) << 24) | ((b[5] as u64) << 16) | ((b[6] as u64) << 8) | (
    b[7] as u64)) as u64
}

pub proof fn lemma_be64_roundtrip(x: u64)
    ensures
        spec_be64_val(spec_be64(x)) == x,
{
    assert((((((x >> 56) as u8) as u64) << 56) | ((((x >> 48) as u8) as u64) << 48) | ((((x
        >> 40) as u8) as u64) << 40) | ((((x >> 32) as u8) as u64) << 32) | ((((x >> 24) as u8)
        as u64) << 24) | ((((x >> 16) as u8) as u64) << 16) | ((((x >> 8) as u8) as u64) << 8) | (
    (x as u8) as u64)) == x) by (bit_vector);
}

/// Two distinct values have distinct byte encodings.
pub proof fn lemma_be64_injective(x: u64, y: u64)
    requires
        spec_be64(x) == spec_be64(y),
    ensures
        x == y,
{
    lemma_be64_roundtrip(x);
    lemma_be64_roundtrip(y);
}

/// Strict byte-lexicographic order: the order in which an ordered
/// byte-keyed store walks its keys.
pub open spec fn lex_lt(a: Seq<u8>, b: Seq<u8>) -> bool
    decreases a.len(),
{
    if b.len() == 0 {
        false
    } else if a.len() == 0 {
        true
    } else if a[0] < b[0] {
        true
    } else if a[0] > b[0] {
        false
    } else {
        lex_lt(a.drop_first(), b.drop_first())
    }
}

pub open spec fn lex_le(a: Seq<u8>, b: Seq<u8>) -> bool {
    lex_lt(a, b) || a == b
}

/// Comparing two concatenations whose first parts have equal length
/// compares the first parts, then the second.
pub proof fn lemma_lex_concat(a: Seq<u8>, b: Seq<u8>, c: Seq<u8>, d: Seq<u8>)
    requires
        a.len() == b.len(),
    ensures
        lex_lt(a + c, b + d) <==> (lex_lt(a, b) || (a == b && lex_lt(c, d))),
    decreases a.len(),
{
    if a.len() == 0 {
        assert(a + c =~= c);
        assert(b + d =~= d);
        assert(a =~= b);
    } else {
        assert((a + c).drop_first() =~= a.drop_first() + c);
        assert((b + d).drop_first() =~= b.drop_first() + d);
        assert((a + c)[0] == a[0]);
        assert((b + d)[0] == b[0]);
        lemma_lex_concat(a.drop_first(), b.drop_first(), c, d);
        if a[0] == b[0] {
            if a.drop_first() == b.drop_first() {
                assert forall|i: int| 0 <= i < a.len() implies a[i] == b[i] by {
                    if i > 0 {
                        assert(a[i] == a.drop_first()[i - 1]);
                        assert(b[i] == b.drop_first()[i - 1]);
                    }
                }
                assert(a =~= b);
            }
            if a == b {
                assert(a.drop_first() =~= b.drop_first());
            }
        } else {
            assert(a != b) by {
                if a == b {
                    assert(a[0] == b[0]);
                }
            }
        }
    }
}

/// Byte-lexicographic order of the eight-byte encodings agrees with
/// numeric order.
pub proof fn lemma_be64_order(x: u64, y: u64)
    ensures
        lex_lt(spec_be64(x), spec_be64(y)) <==> x < y,
{
    let a = spec_be64(x);
    let b = spec_be64(y);
    let a1 = a.drop_first();
    let b1 = b.drop_first();
    let a2 = a1.drop_first();
    let b2 = b1.drop_first();
    let a3 = a2.drop_first();
    let b3 = b2.drop_first();
    let a4 = a3.drop_first();
    let b4 = b3.drop_first();
    let a5 = a4.drop_first();
    let b5 = b4.drop_first();
    let a6 = a5.drop_first();
    let b6 = b5.drop_first();
    let a7 = a6.drop_first();
    let b7 = b6.drop_first();
    assert(a7.len() == 1 && b7.len() == 1);
    assert(a7[0] == a[7] && b7[0] == b[7]);
    assert(a6[0] == a[6] && b6[0] == b[6]);
    assert(a5[0] == a[5] && b5[0] == b[5]);
    assert(a4[0] == a[4] && b4[0] == b[4]);
    assert(a3[0] == a[3] && b3[0] == b[3]);
    assert(a2[0] == a[2] && b2[0] == b[2]);
    assert(a1[0] == a[1] && b1[0] == b[1]);
    // Compare the low k bytes of x and y, for k from 1 to 8, and tie each
    // comparison to the lexicographic order of the matching byte suffixes.
    assert(!lex_lt(a7.drop_first(), b7.drop_first()));
    assert(lex_lt(a7, b7) <==> (x as u8) < (y as u8));
    assert((((x >> 8) as u8) < ((y >> 8) as u8) || ((x >> 8) as u8 == (y >> 8) as u8 && (x as u8) < (
    y as u8))) <==> (x as u16) < (y as u16)) by (bit_vector);
    assert(lex_lt(a6, b6) <==> (x as u16) < (y as u16));
    assert((((x >> 16) as u8) < ((y >> 16) as u8) || ((x >> 16) as u8 == (y >> 16) as u8 && (x as u16)
        < (y as u16))) <==> (x as u32 & 0xffffff) < (y as u32 & 0xffffff)) by (bit_vector);
    assert(lex_lt(a5, b5) <==> (x as u32 & 0xffffff) < (y as u32 & 0xffffff));
    assert((((x >> 24) as u8) < ((y >> 24) as u8) || ((x >> 24) as u8 == (y >> 24) as u8 && (x as u32
        & 0xffffff) < (y as u32 & 0xffffff))) <==> (x as u32) < (y as u32)) by (bit_vector);
    assert(lex_lt(a4, b4) <==> (x as u32) < (y as u32));
    assert((((x >> 32) as u8) < ((y >> 32) as u8) || ((x >> 32) as u8 == (y >> 32) as u8 && (x as u32)
        < (y as u32))) <==> (x & 0xff_ffff_ffff) < (y & 0xff_ffff_ffff)) by (bit_vector);
    assert(lex_lt(a3, b3) <==> (x & 0xff_ffff_ffff) < (y & 0xff_ffff_ffff));
    assert((((x >> 40) as u8) < ((y >> 40) as u8) || ((x >> 40) as u8 == (y >> 40) as u8 && (x
        & 0xff_ffff_ffff) < (y & 0xff_ffff_ffff))) <==> (x & 0xffff_ffff_ffff) < (y
        & 0xffff_ffff_ffff)) by (bit_vector);
    assert(lex_lt(a2, b2) <==> (x & 0xffff_ffff_ffff) < (y & 0xffff_ffff_ffff));
    assert((((x >> 48) as u8) < ((y >> 48) as u8) || ((x >> 48) as u8 == (y >> 48) as u8 && (x
        & 0xffff_ffff_ffff) < (y & 0xffff_ffff_ffff))) <==> (x & 0xff_ffff_ffff_ffff) < (y
        & 0xff_ffff_ffff_ffff)) by (bit_vector);
    assert(lex_lt(a1, b1) <==> (x & 0xff_ffff_ffff_ffff) < (y & 0xff_ffff_ffff_ffff));
    assert((((x >> 56) as u8) < ((y >> 56) as u8) || ((x >> 56) as u8 == (y >> 56) as u8 && (x
        & 0xff_ffff_ffff_ffff) < (y & 0xff_ffff_ffff_ffff))) <==> x < y) by (bit_vector);
    assert(lex_lt(a, b) <==> x < y);
}

/// The eight bytes of `x`, most significant first, as a vector.
pub fn u64_to_be_bytes(x: u64) -> (r: Vec<u8>)
    ensures
        r@ == spec_be64(x),
{
    let mut v: Vec<u8> = Vec::new();
    v.push((x >> 56) as u8);
    v.push((x >> 48) as u8);
    v.push((x >> 40) as u8);
    v.push((x >> 32) as u8);
    v.push((x >> 24) as u8);
    v.push((x >> 16) as u8);
    v.push((x >> 8) as u8);
    v.push(x as u8);
    proof {
        assert(v@ =~= spec_be64(x));
    }
    v
}

/// Reads the big-endian value stored at `off`.
pub fn be64_at(b: &Vec<u8>, off: usize) -> (r: u64)
    requires
        off + 8 <= b@.len(),
    ensures
        r == spec_be64_val(b@.subrange(off as int, off as int + 8)),
{
    let n = b.len();
    let r = ((b[off] as u64) << 56) | ((b[off + 1] as u64) << 48) | ((b[off + 2] as u64) << 40) | ((
    b[off + 3] as u64) << 32) | ((b[off + 4] as u64) << 24) | ((b[off + 5] as u64) << 16) | ((b[off
        + 6] as u64) << 8) | (b[off + 7] as u64);
    proof {
        let s = b@.subrange(off as int, off as int + 8);
        assert(s[0] == b@[off as int]);
        assert(s[1] == b@[off as int + 1]);
        assert(s[2] == b@[off as int + 2]);
        assert(s[3] == b@[off as int + 3]);
        assert(s[4] == b@[off as int + 4]);
        assert(s[5] == b@[off as int + 5]);
        assert(s[6] == b@[off as int + 6]);
        assert(s[7] == b@[off as int + 7]);
    }
    r
}

} // verus!

verus! {

/// The store key for one event: the timestamp, then a per-store sequence
/// number that keeps two events with the same timestamp on distinct keys.
pub open spec fn spec_key(ts: u64, seq_no: u64) -> Seq<u8> {
    spec_be64(ts) + spec_be64(seq_no)
}

/// Key order is timestamp order first, sequence order second.
pub proof fn lemma_key_order(t1: u64, s1: u64, t2: u64, s2: u64)
    ensures
        lex_lt(spec_key(t1, s1), spec_key(t2, s2)) <==> (t1 < t2 || (t1 == t2 && s1 < s2)),
{
    lemma_lex_concat(spec_be64(t1), spec_be64(t2), spec_be64(s1), spec_be64(s2));
    lemma_be64_order(t1, t2);
    lemma_be64_order(s1, s2);
    if spec_be64(t1) == spec_be64(t2) {
        lemma_be64_injective(t1, t2);
    }
}

/// Two equal keys carry the same timestamp and sequence number.
pub proof fn lemma_key_injective(t1: u64, s1: u64, t2: u64, s2: u64)
    requires
        spec_key(t1, s1) == spec_key(t2, s2),
    ensures
        t1 == t2 && s1 == s2,
{
    lemma_key_order(t1, s1, t2, s2);
    lemma_key_order(t2, s2, t1, s1);
    if t1 != t2 || s1 != s2 {
        assert(lex_lt(spec_key(t1, s1), spec_key(t2, s2)) || lex_lt(
            spec_key(t2, s2),
            spec_key(t1, s1),
        ));
        lemma_lex_irreflexive(spec_key(t1, s1));
    }
}

/// Strict lexicographic order never holds of a sequence and itself.
pub proof fn lemma_lex_irreflexive(a: Seq<u8>)
    ensures
        !lex_lt(a, a),
    decreases a.len(),
{
    if a.len() > 0 {
        lemma_lex_irreflexive(a.drop_first());
    }
}

/// A key lies in the byte range spanned by two timestamp bounds exactly
/// when its timestamp lies in the half-open numeric range.
pub proof fn lemma_key_in_range(ts: u64, sq: u64, start: u64, end: u64)
    ensures
        (lex_le(spec_key(start, 0), spec_key(ts, sq)) && lex_lt(
            spec_key(ts, sq),
            spec_key(end, 0),
        )) <==> (start <= ts < end),
{
    lemma_key_order(start, 0, ts, sq);
    lemma_key_order(ts, sq, end, 0);
    if spec_key(start, 0) == spec_key(ts, sq) {
        lemma_key_injective(start, 0, ts, sq);
    }
    if start == ts && sq == 0 {
        assert(spec_key(start, 0) == spec_key(ts, sq));
    }
}

/// One length-prefixed character sequence: the byte length of its UTF-8
/// form, then the bytes themselves.
pub open spec fn spec_ser_str(s: Seq<char>) -> Seq<u8> {
    spec_be64(vstd::utf8::encode_utf8(s).len() as u64) + vstd::utf8::encode_utf8(s)
}

/// The attribute pairs, each name and value length-prefixed, in order.
pub open spec fn spec_ser_attrs(attrs: Seq<(Seq<char>, Seq<char>)>) -> Seq<u8>
    decreases attrs.len(),
{
    if attrs.len() == 0 {
        Seq::empty()
    } else {
        spec_ser_str(attrs[0].0) + spec_ser_str(attrs[0].1) + spec_ser_attrs(attrs.drop_first())
    }
}

/// The full encoding of an event: timestamp, attribute count, attributes.
pub open spec fn spec_serialize(e: crate::event::EventView) -> Seq<u8> {
    spec_be64(e.timestamp) + spec_be64(e.attributes.len() as u64) + spec_ser_attrs(e.attributes)
}

/// Every count and byte length of the event fits the fixed-width fields
/// of the encoding. Holds of every event built at run time.
pub open spec fn event_wf(e: crate::event::EventView) -> bool {
    &&& e.attributes.len() <= u64::MAX
    &&& forall|i: int|
        0 <= i < e.attributes.len() ==> vstd::utf8::encode_utf8(#[trigger] e.attributes[i].0).len()
            <= u64::MAX && vstd::utf8::encode_utf8(e.attributes[i].1).len() <= u64::MAX
}

/// Reads a fixed-width integer off the front, if eight bytes are there.
pub open spec fn spec_take_u64(b: Seq<u8>) -> Option<(u64, Seq<u8>)> {
    if b.len() >= 8 {
        Some((spec_be64_val(b.take(8)), b.skip(8)))
    } else {
        None
    }
}

/// Reads one length-prefixed character sequence off the front.
pub open spec fn spec_take_str(b: Seq<u8>) -> Option<(Seq<char>, Seq<u8>)> {
    match spec_take_u64(b) {
        Some((n, rest)) => if rest.len() >= n && vstd::utf8::valid_utf8(rest.take(n as int)) {
            Some((vstd::utf8::decode_utf8(rest.take(n as int)), rest.skip(n as int)))
        } else {
            None
        },
        None => None,
    }
}

/// Reads `n` attribute pairs off the front.
pub open spec fn spec_parse_attrs(b: Seq<u8>, n: nat) -> Option<
    (Seq<(Seq<char>, Seq<char>)>, Seq<u8>),
>
    decreases n,
{
    if n == 0 {
        Some((Seq::empty(), b))
    } else {
        match spec_take_str(b) {
            Some((k, b1)) => match spec_take_str(b1) {
                Some((v, b2)) => match spec_parse_attrs(b2, (n - 1) as nat) {
                    Some((rest, b3)) => Some((seq![(k, v)] + rest, b3)),
                    None => None,
                },
                None => None,
            },
            None => None,
        }
    }
}

/// Decodes a byte string back into an event; `None` on any byte string
/// that no event encodes to.
pub open spec fn spec_deserialize(b: Seq<u8>) -> Option<crate::event::EventView> {
    match spec_take_u64(b) {
        Some((ts, b1)) => match spec_take_u64(b1) {
            Some((n, b2)) => match spec_parse_attrs(b2, n as nat) {
                Some((attrs, b3)) => if b3.len() == 0 {
                    Some(crate::event::EventView { timestamp: ts, attributes: attrs })
                } else {
                    None
                },
                None => None,
            },
            None => None,
        },
        None => None,
    }
}

proof fn lemma_take_u64_of_prefix(x: u64, rest: Seq<u8>)
    ensures
        spec_take_u64(spec_be64(x) + rest) == Some((x, rest)),
{
    let b = spec_be64(x) + rest;
    assert(b.take(8) =~= spec_be64(x));
    assert(b.skip(8) =~= rest);
    lemma_be64_roundtrip(x);
}

proof fn lemma_take_str_of_prefix(s: Seq<char>, rest: Seq<u8>)
    requires
        vstd::utf8::encode_utf8(s).len() <= u64::MAX,
    ensures
        spec_take_str(spec_ser_str(s) + rest) == Some((s, rest)),
{
    broadcast use vstd::utf8::encode_utf8_valid_utf8;
    broadcast use vstd::utf8::encode_utf8_decode_utf8;

    let enc = vstd::utf8::encode_utf8(s);
    let n = enc.len() as u64;
    assert(spec_ser_str(s) + rest =~= spec_be64(n) + (enc + rest));
    lemma_take_u64_of_prefix(n, enc + rest);
    assert((enc + rest).take(n as int) =~= enc);
    assert((enc + rest).skip(n as int) =~= rest);
}

#[verifier::rlimit(100)]
#[verifier::spinoff_prover]
proof fn lemma_parse_attrs_of_prefix(attrs: Seq<(Seq<char>, Seq<char>)>, rest: Seq<u8>)
    requires
        forall|i: int|
            0 <= i < attrs.len() ==> vstd::utf8::encode_utf8(#[trigger] attrs[i].0).len()
                <= u64::MAX && vstd::utf8::encode_utf8(attrs[i].1).len() <= u64::MAX,
    ensures
        spec_parse_attrs(spec_ser_attrs(attrs) + rest, attrs.len()) == Some((attrs, rest)),
    decreases attrs.len(),
{
    if attrs.len() == 0 {
        assert(spec_ser_attrs(attrs) + rest =~= rest);
        assert(spec_parse_attrs(rest, 0) == Some((Seq::<(Seq<char>, Seq<char>)>::empty(), rest)));
        assert(attrs =~= Seq::<(Seq<char>, Seq<char>)>::empty());
    } else {
        let k = attrs[0].0;
        let v = attrs[0].1;
        let tail = attrs.drop_first();
        let b = spec_ser_attrs(attrs) + rest;
        assert(b =~= spec_ser_str(k) + (spec_ser_str(v) + (spec_ser_attrs(tail) + rest)));
        lemma_take_str_of_prefix(k, spec_ser_str(v) + (spec_ser_attrs(tail) + rest));
        lemma_take_str_of_prefix(v, spec_ser_attrs(tail) + rest);
        lemma_parse_attrs_of_prefix(tail, rest);
        assert(seq![(k, v)] + tail =~= attrs);
    }
}

/// Law: decoding the encoding of any event yields that event back,
/// whatever its attributes, including none and non-ASCII text.
pub proof fn lemma_event_round_trip(e: crate::event::EventView)
    requires
        event_wf(e),
    ensures
        spec_deserialize(spec_serialize(e)) == Some(e),
{
    let n = e.attributes.len() as u64;
    let body = spec_be64(n) + spec_ser_attrs(e.attributes);
    assert(spec_serialize(e) =~= spec_be64(e.timestamp) + body);
    lemma_take_u64_of_prefix(e.timestamp, body);
    lemma_take_u64_of_prefix(n, spec_ser_attrs(e.attributes));
    assert(spec_ser_attrs(e.attributes) =~= spec_ser_attrs(e.attributes) + Seq::<u8>::empty());
    lemma_parse_attrs_of_prefix(e.attributes, Seq::<u8>::empty());
    assert(spec_deserialize(spec_serialize(e)) == Some(
        crate::event::EventView { timestamp: e.timestamp, attributes: e.attributes },
    ));
    assert(crate::event::EventView { timestamp: e.timestamp, attributes: e.attributes } == e);
}

} // verus!

verus! {

/// Relies on std's String::from_utf8: it succeeds exactly on valid
/// UTF-8 input and decodes the bytes to the characters they encode.
#[verifier::external_body]
fn bytes_to_string(b: Vec<u8>) -> (r: Option<String>)
    ensures
        r is Some <==> vstd::utf8::valid_utf8(b@),
        r matches Some(s) ==> s@ == vstd::utf8::decode_utf8(b@),
{
    String::from_utf8(b).ok()
}

pub(crate) fn append_bytes(out: &mut Vec<u8>, b: &[u8])
    ensures
        final(out)@ == old(out)@ + b@,
{
    let mut i: usize = 0;
    while i < b.len()
        invariant
            i <= b@.len(),
            out@ == old(out)@ + b@.take(i as int),
        decreases b@.len() - i,
    {
        let x = b[i];
        out.push(x);
        proof {
            assert((old(out)@ + b@.take(i as int)).push(b@[i as int]) =~= old(out)@ + b@.take(
                i as int + 1,
            ));
        }
        i += 1;
    }
    proof {
        assert(b@.take(b@.len() as int) =~= b@);
    }
}

fn append_string(out: &mut Vec<u8>, s: &String)
    ensures
        final(out)@ == old(out)@ + spec_ser_str(s@),
        vstd::utf8::encode_utf8(s@).len() <= u64::MAX,
{
    let bs: &[u8] = s.as_str().as_bytes();
    let n: usize = bs.len();
    let len_bytes = u64_to_be_bytes(n as u64);
    append_bytes(out, len_bytes.as_slice());
    append_bytes(out, bs);
    proof {
        assert(out@ =~= old(out)@ + spec_ser_str(s@));
    }
}

proof fn lemma_ser_attrs_snoc(p: Seq<(Seq<char>, Seq<char>)>, x: (Seq<char>, Seq<char>))
    ensures
        spec_ser_attrs(p.push(x)) == spec_ser_attrs(p) + spec_ser_str(x.0) + spec_ser_str(x.1),
    decreases p.len(),
{
    if p.len() == 0 {
        assert(p.push(x)[0] == x);
        assert(p.push(x).drop_first() =~= p);
        assert(spec_ser_attrs(p) =~= Seq::<u8>::empty());
        assert(spec_ser_attrs(p.push(x)) =~= spec_ser_attrs(p) + spec_ser_str(x.0) + spec_ser_str(
            x.1,
        ));
    } else {
        assert(p.push(x).drop_first() =~= p.drop_first().push(x));
        assert(p.push(x)[0] == p[0]);
        lemma_ser_attrs_snoc(p.drop_first(), x);
        assert(spec_ser_attrs(p.push(x)) =~= spec_ser_attrs(p) + spec_ser_str(x.0) + spec_ser_str(
            x.1,
        ));
    }
}

/// Encodes an event into its byte form.
pub fn serialize_event(e: &crate::event::Event) -> (r: Vec<u8>)
    ensures
        r@ == spec_serialize(e@),
        event_wf(e@),
{
    let mut out = u64_to_be_bytes(e.timestamp);
    let count = e.attributes.len();
    let cnt_bytes = u64_to_be_bytes(count as u64);
    append_bytes(&mut out, cnt_bytes.as_slice());
    let mut i: usize = 0;
    proof {
        assert(e@.attributes.take(0) =~= Seq::<(Seq<char>, Seq<char>)>::empty());
    }
    while i < e.attributes.len()
        invariant
            i <= e.attributes@.len(),
            count == e.attributes@.len(),
            out@ == spec_be64(e.timestamp) + spec_be64(count as u64) + spec_ser_attrs(
                e@.attributes.take(i as int),
            ),
            forall|j: int|
                0 <= j < i ==> vstd::utf8::encode_utf8(#[trigger] e@.attributes[j].0).len()
                    <= u64::MAX && vstd::utf8::encode_utf8(e@.attributes[j].1).len() <= u64::MAX,
        decreases e.attributes@.len() - i,
    {
        let pair = &e.attributes[i];
        append_string(&mut out, &pair.0);
        append_string(&mut out, &pair.1);
        proof {
            assert(e@.attributes[i as int] == (e.attributes@[i as int].0@,
            e.attributes@[i as int].1@));
            lemma_ser_attrs_snoc(e@.attributes.take(i as int), e@.attributes[i as int]);
            assert(e@.attributes.take(i as int).push(e@.attributes[i as int]) =~= e@.attributes.take(
                i as int + 1,
            ));
            assert(out@ =~= spec_be64(e.timestamp) + spec_be64(count as u64) + spec_ser_attrs(
                e@.attributes.take(i as int + 1),
            ));
            assert forall|j: int| 0 <= j < i + 1 implies vstd::utf8::encode_utf8(
                #[trigger] e@.attributes[j].0,
            ).len() <= u64::MAX && vstd::utf8::encode_utf8(e@.attributes[j].1).len()
                <= u64::MAX by {
                if j == i {
                    assert(e@.attributes[j].0 == pair.0@);
                    assert(e@.attributes[j].1 == pair.1@);
                }
            }
        }
        i += 1;
    }
    proof {
        assert(e@.attributes.take(e@.attributes.len() as int) =~= e@.attributes);
        assert(out@ =~= spec_serialize(e@));
    }
    out
}

fn take_string(b: &Vec<u8>, pos: usize) -> (r: Option<(String, usize)>)
    requires
        pos <= b@.len(),
    ensures
        match r {
            Some(p) => {
                &&& pos <= p.1 <= b@.len()
                &&& spec_take_str(b@.skip(pos as int)) == Some((p.0@, b@.skip(p.1 as int)))
            },
            None => spec_take_str(b@.skip(pos as int)) is None,
        },
{
    let len = b.len();
    if len - pos < 8 {
        return None;
    }
    let n = be64_at(b, pos);
    proof {
        assert(b@.skip(pos as int).take(8) =~= b@.subrange(pos as int, pos as int + 8));
    }
    let avail = len - pos - 8;
    if n > avail as u64 {
        proof {
            assert(b@.skip(pos as int).skip(8).len() < n);
        }
        return None;
    }
    let nn = n as usize;
    let mut raw: Vec<u8> = Vec::new();
    let mut j: usize = 0;
    while j < nn
        invariant
            len == b@.len(),
            pos + 8 + nn <= b@.len(),
            j <= nn,
            raw@ == b@.subrange(pos as int + 8, pos as int + 8 + j as int),
        decreases nn - j,
    {
        let x = b[pos + 8 + j];
        raw.push(x);
        proof {
            assert(b@.subrange(pos as int + 8, pos as int + 8 + j as int).push(
                b@[pos as int + 8 + j],
            ) =~= b@.subrange(pos as int + 8, pos as int + 8 + j as int + 1));
        }
        j += 1;
    }
    proof {
        let rest = b@.skip(pos as int).skip(8);
        assert(rest =~= b@.skip(pos as int + 8));
        assert(rest.take(n as int) =~= raw@);
        assert(rest.skip(n as int) =~= b@.skip(pos as int + 8 + n as int));
    }
    match bytes_to_string(raw) {
        Some(s) => Some((s, pos + 8 + nn)),
        None => None,
    }
}

/// Decodes a byte form back into an event; `None` exactly on byte
/// strings that decode to no event.
#[verifier::loop_isolation(false)]
#[verifier::rlimit(100)]
pub fn deserialize_event(b: &Vec<u8>) -> (r: Option<crate::event::Event>)
    ensures
        match r {
            Some(ev) => spec_deserialize(b@) == Some(ev@),
            None => spec_deserialize(b@) is None,
        },
{
    let len = b.len();
    if len < 8 {
        return None;
    }
    let ts = be64_at(b, 0);
    proof {
        assert(b@.take(8) =~= b@.subrange(0, 8));
    }
    if len - 8 < 8 {
        proof {
            assert(b@.skip(8).len() < 8);
        }
        return None;
    }
    let count = be64_at(b, 8);
    proof {
        assert(b@.skip(8).take(8) =~= b@.subrange(8, 16));
        assert(b@.skip(8).skip(8) =~= b@.skip(16));
    }
    let mut pos: usize = 16;
    let mut attrs: Vec<(String, String)> = Vec::new();
    let mut i: u64 = 0;
    proof {
        assert(attrs.deep_view() + spec_parse_attrs(b@.skip(16), count as nat).unwrap().0
            =~= spec_parse_attrs(b@.skip(16), count as nat).unwrap().0) by {
            assert(attrs.deep_view() =~= Seq::<(Seq<char>, Seq<char>)>::empty());
        }
    }
    while i < count
        invariant
            16 <= pos <= b@.len(),
            i <= count,
            ({
                let whole = spec_parse_attrs(b@.skip(16), count as nat);
                match spec_parse_attrs(b@.skip(pos as int), (count - i) as nat) {
                    Some(now) => whole == Some((attrs.deep_view() + now.0, now.1)),
                    None => whole is None,
                }
            }),
        decreases count - i,
    {
        let kp = match take_string(b, pos) {
            Some(p) => p,
            None => {
                proof {
                    assert(spec_parse_attrs(b@.skip(pos as int), (count - i) as nat) is None);
                    assert(spec_parse_attrs(b@.skip(16), count as nat) is None);
                    assert(spec_deserialize(b@) is None);
                }
                return None;
            },
        };
        let vp = match take_string(b, kp.1) {
            Some(p) => p,
            None => {
                proof {
                    assert(spec_take_str(b@.skip(pos as int)) == Some((kp.0@, b@.skip(kp.1 as int))));
                    assert(spec_parse_attrs(b@.skip(pos as int), (count - i) as nat) is None);
                    assert(spec_parse_attrs(b@.skip(16), count as nat) is None);
                    assert(spec_deserialize(b@) is None);
                }
                return None;
            },
        };
        let ghost old_attrs = attrs.deep_view();
        attrs.push((kp.0, vp.0));
        proof {
            assert(attrs.deep_view() =~= old_attrs.push((kp.0@, vp.0@)));
            let nafter = spec_parse_attrs(b@.skip(vp.1 as int), (count - i - 1) as nat);
            if nafter is Some {
                let next = nafter.unwrap();
                let now = spec_parse_attrs(b@.skip(pos as int), (count - i) as nat).unwrap();
                assert(now.0 =~= seq![(kp.0@, vp.0@)] + next.0);
                assert(old_attrs + now.0 =~= attrs.deep_view() + next.0);
            }
        }
        pos = vp.1;
        i = i + 1;
    }
    if pos != len {
        proof {
            assert(spec_parse_attrs(b@.skip(pos as int), 0) == Some((
                Seq::<(Seq<char>, Seq<char>)>::empty(),
                b@.skip(pos as int),
            )));
            assert(b@.skip(pos as int).len() != 0);
            assert(attrs.deep_view() + Seq::<(Seq<char>, Seq<char>)>::empty() =~= attrs.deep_view());
        }
        return None;
    }
    proof {
        assert(attrs.deep_view() + Seq::<(Seq<char>, Seq<char>)>::empty() =~= attrs.deep_view());
        assert(b@.skip(pos as int).len() == 0);
    }
    Some(crate::event::Event { timestamp: ts, attributes: attrs })
}

} // verus!

verus! {

/// Any eight bytes are the encoding of the value read from them.
pub proof fn lemma_be64_val_roundtrip(b: Seq<u8>)
    requires
        b.len() == 8,
    ensures
        spec_be64(spec_be64_val(b)) == b,
{
    let x = spec_be64_val(b);
    let b0 = b[0];
    let b1 = b[1];
    let b2 = b[2];
    let b3 = b[3];
    let b4 = b[4];
    let b5 = b[5];
    let b6 = b[6];
    let b7 = b[7];
    assert((x >> 56) as u8 == b0 && (x >> 48) as u8 == b1 && (x >> 40) as u8 == b2 && (x >> 32)
        as u8 == b3 && (x >> 24) as u8 == b4 && (x >> 16) as u8 == b5 && (x >> 8) as u8 == b6 && x
        as u8 == b7) by (bit_vector)
        requires
            x == ((((b0 as u64) << 56) | ((b1 as u64) << 48) | ((b2 as u64) << 40) | ((b3 as u64)
                << 32) | ((b4 as u64) << 24) | ((b5 as u64) << 16) | ((b6 as u64) << 8) | (
            b7 as u64)) as u64),
    ;
    assert(spec_be64(x) =~= b);
}

/// Strict lexicographic order composes with itself and with equality.
pub proof fn lemma_lex_lt_trans(a: Seq<u8>, b: Seq<u8>, c: Seq<u8>)
    requires
        lex_lt(a, b),
        lex_lt(b, c),
    ensures
        lex_lt(a, c),
    decreases a.len(),
{
    if c.len() == 0 {
    } else if b.len() == 0 {
    } else if a.len() == 0 {
    } else {
        if a[0] == b[0] && b[0] == c[0] {
            lemma_lex_lt_trans(a.drop_first(), b.drop_first(), c.drop_first());
        }
    }
}

/// A key between two bounds shows the bounds are in order.
pub proof fn lemma_lex_between(lo: Seq<u8>, k: Seq<u8>, hi: Seq<u8>)
    requires
        lex_le(lo, k),
        lex_lt(k, hi),
    ensures
        lex_lt(lo, hi),
{
    if lex_lt(lo, k) {
        lemma_lex_lt_trans(lo, k, hi);
    }
}

/// The timestamp half of a sixteen-byte key.
pub open spec fn key_ts(k: Seq<u8>) -> u64 {
    spec_be64_val(k.take(8))
}

/// Every sixteen-byte key is the key encoding of its two halves.
pub proof fn lemma_key_split(k: Seq<u8>)
    requires
        k.len() == 16,
    ensures
        k == spec_key(key_ts(k), spec_be64_val(k.skip(8))),
{
    assert(k.take(8).len() == 8);
    assert(k.skip(8).len() == 8);
    lemma_be64_val_roundtrip(k.take(8));
    lemma_be64_val_roundtrip(k.skip(8));
    assert(k =~= k.take(8) + k.skip(8));
}

} // verus!
