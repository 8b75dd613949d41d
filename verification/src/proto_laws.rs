//! What holds of the wire format as a whole.

use vstd::prelude::*;
use vstd::utf8::*;

use crate::le::{
    i32_bits, i32_of_bits, le_bytes, le_value, lemma_bytes_of_value, lemma_i32_bits,
    lemma_le_bytes_len, lemma_le_value_bound, lemma_pow256_values, lemma_value_of_bytes,
};
use crate::proto::{
    client_hello_reading, client_hello_wants, filter_encoding, filter_fits, filter_reading,
    frame_header_reading, hello_reading, hello_wants, opening_wants, preamble, preamble_fault,
    ClientHelloView, FrameHeader, HelloView, Opening, ProtoError, MAGIC, MAGIC_CLIENT, VERSION,
};

verus! {

proof fn lemma_preamble_accepted(o: Opening, tail: Seq<u8>)
    ensures
        preamble(o).len() == 6,
        preamble_fault(preamble(o) + tail, o) is None,
{
    let s = preamble(o) + tail;
    assert(s.take(4) =~= o.magic());
}

proof fn lemma_filter_reads_back(filter: Seq<char>, tail: Seq<u8>)
    requires
        filter_fits(filter),
    ensures
        filter_reading(filter_encoding(filter) + tail) == (
            Ok::<Seq<char>, ProtoError>(filter),
            filter_encoding(filter).len(),
        ),
{
    let bytes = encode_utf8(filter);
    let s = filter_encoding(filter) + tail;
    lemma_pow256_values();
    lemma_le_bytes_len(bytes.len(), 2);
    lemma_value_of_bytes(bytes.len(), 2);
    assert(s.take(2) =~= le_bytes(bytes.len(), 2));
    assert(s.subrange(2, 2 + bytes.len() as int) =~= bytes);
    encode_utf8_valid_utf8(filter);
    encode_utf8_decode_utf8(filter);
}

/// A `Hello` that was written reads back, whatever follows it, and takes exactly
/// its own bytes off the stream.
pub proof fn law_hello_reads_back(h: HelloView, tail: Seq<u8>)
    requires
        filter_fits(h.filter),
    ensures
        hello_reading(h.encoding() + tail) == (
            Ok::<HelloView, ProtoError>(h),
            h.encoding().len(),
        ),
{
    let s = h.encoding() + tail;
    let link = le_bytes(i32_bits(h.link_type), 4);
    let snap = le_bytes(h.snaplen as nat, 4);
    lemma_pow256_values();
    lemma_i32_bits(h.link_type);
    lemma_le_bytes_len(i32_bits(h.link_type), 4);
    lemma_le_bytes_len(h.snaplen as nat, 4);
    lemma_value_of_bytes(i32_bits(h.link_type), 4);
    lemma_value_of_bytes(h.snaplen as nat, 4);
    lemma_preamble_accepted(Opening::Agent, s.skip(6));
    assert(s =~= preamble(Opening::Agent) + s.skip(6));
    assert(s.subrange(6, 10) =~= link);
    assert(s.subrange(10, 14) =~= snap);
    assert(s.skip(14) =~= filter_encoding(h.filter) + tail);
    lemma_filter_reads_back(h.filter, tail);
}

/// A `ClientHello` that was written reads back, whatever follows it, and takes
/// exactly its own bytes off the stream.
pub proof fn law_client_hello_reads_back(h: ClientHelloView, tail: Seq<u8>)
    requires
        filter_fits(h.filter),
    ensures
        client_hello_reading(h.encoding() + tail) == (
            Ok::<ClientHelloView, ProtoError>(h),
            h.encoding().len(),
        ),
{
    let s = h.encoding() + tail;
    lemma_preamble_accepted(Opening::Client, s.skip(6));
    assert(s =~= preamble(Opening::Client) + s.skip(6));
    assert(s.skip(6) =~= filter_encoding(h.filter) + tail);
    lemma_filter_reads_back(h.filter, tail);
}

/// A frame header that was written reads back, whatever follows it.
pub proof fn law_frame_header_reads_back(h: FrameHeader, tail: Seq<u8>)
    ensures
        h.encoding().len() == 16,
        frame_header_reading(h.encoding() + tail) == (Ok::<FrameHeader, ProtoError>(h), 16nat),
{
    let s = h.encoding() + tail;
    lemma_pow256_values();
    lemma_le_bytes_len(h.ts_micros as nat, 8);
    lemma_le_bytes_len(h.caplen as nat, 4);
    lemma_le_bytes_len(h.origlen as nat, 4);
    lemma_value_of_bytes(h.ts_micros as nat, 8);
    lemma_value_of_bytes(h.caplen as nat, 4);
    lemma_value_of_bytes(h.origlen as nat, 4);
    assert(s.take(8) =~= le_bytes(h.ts_micros as nat, 8));
    assert(s.subrange(8, 12) =~= le_bytes(h.caplen as nat, 4));
    assert(s.subrange(12, 16) =~= le_bytes(h.origlen as nat, 4));
}

/// The agent's message is never taken for the dialing side's, nor the other way
/// round: the other reader refuses it at its magic.
pub proof fn law_openings_are_told_apart(h: HelloView, c: ClientHelloView, tail: Seq<u8>)
    ensures
        client_hello_reading(h.encoding() + tail) == (
            Err::<ClientHelloView, ProtoError>(ProtoError::BadMagic(Opening::Client)),
            4nat,
        ),
        hello_reading(c.encoding() + tail) == (
            Err::<HelloView, ProtoError>(ProtoError::BadMagic(Opening::Agent)),
            4nat,
        ),
{
    let s = h.encoding() + tail;
    assert(s.take(4)[3] == MAGIC@[3]);
    assert(MAGIC@[3] != MAGIC_CLIENT@[3]);
    let t = c.encoding() + tail;
    assert(t.take(4)[3] == MAGIC_CLIENT@[3]);
}

proof fn lemma_filter_canonical(s: Seq<u8>)
    ensures
        filter_reading(s) matches (Ok(f), used) ==> filter_fits(f) && used <= s.len() && s.take(
            used as int,
        ) == filter_encoding(f),
{
    if let (Ok(f), used) = filter_reading(s) {
        let bytes = s.subrange(2, used as int);
        lemma_pow256_values();
        lemma_le_value_bound(s.take(2));
        lemma_bytes_of_value(s.take(2));
        decode_utf8_encode_utf8(bytes);
        assert(s.take(used as int) =~= s.take(2) + bytes);
    }
}

/// A `Hello` that was read, written again, gives the bytes that it was read from
/// but for the flags, which are written as 0.
pub proof fn law_hello_writes_back(s: Seq<u8>)
    ensures
        hello_reading(s) matches (Ok(h), used) ==> filter_fits(h.filter) && used <= s.len()
            && h.encoding() == s.take(used as int).update(5, 0u8),
{
    if let (Ok(h), used) = hello_reading(s) {
        lemma_filter_canonical(s.skip(14));
        lemma_pow256_values();
        lemma_le_value_bound(s.subrange(6, 10));
        lemma_le_value_bound(s.subrange(10, 14));
        lemma_bytes_of_value(s.subrange(6, 10));
        lemma_bytes_of_value(s.subrange(10, 14));
        let bits = le_value(s.subrange(6, 10));
        assert(i32_bits(i32_of_bits(bits) as i32) == bits);
        assert(s.take(4) == MAGIC@);
        let front = s.take(used as int).update(5, 0u8);
        assert(s.take(4) =~= front.take(4));
        assert(front =~= preamble(Opening::Agent) + s.subrange(6, 10) + s.subrange(10, 14)
            + s.skip(14).take(used - 14)) by {
            assert forall|i: int| 0 <= i < 4 implies front[i] == MAGIC@[i] by {
                assert(front[i] == s.take(4)[i]);
            }
        }
        assert(h.encoding() =~= front);
    }
}

/// A `ClientHello` that was read, written again, gives the bytes that it was
/// read from but for the flags, which are written as 0.
pub proof fn law_client_hello_writes_back(s: Seq<u8>)
    ensures
        client_hello_reading(s) matches (Ok(h), used) ==> filter_fits(h.filter) && used <= s.len()
            && h.encoding() == s.take(used as int).update(5, 0u8),
{
    if let (Ok(h), used) = client_hello_reading(s) {
        lemma_filter_canonical(s.skip(6));
        let front = s.take(used as int).update(5, 0u8);
        assert(front =~= preamble(Opening::Client) + s.skip(6).take(used - 6)) by {
            assert forall|i: int| 0 <= i < 4 implies front[i] == MAGIC_CLIENT@[i] by {
                assert(front[i] == s.take(4)[i]);
            }
        }
    }
}

/// Every sixteen bytes are a frame header, and writing it again gives them back.
pub proof fn law_frame_header_writes_back(s: Seq<u8>)
    requires
        s.len() >= 16,
    ensures
        frame_header_reading(s).0 matches Ok(h) && h.encoding() == s.take(16),
{
    lemma_pow256_values();
    lemma_le_value_bound(s.take(8));
    lemma_le_value_bound(s.subrange(8, 12));
    lemma_le_value_bound(s.subrange(12, 16));
    lemma_bytes_of_value(s.take(8));
    lemma_bytes_of_value(s.subrange(8, 12));
    lemma_bytes_of_value(s.subrange(12, 16));
    assert(s.take(16) =~= s.take(8) + s.subrange(8, 12) + s.subrange(12, 16));
}

// ---- fetching a message piece by piece ----

/// Where an opening message at the front of `s` ends, or where its fault lies,
/// once `s` shows either.
spec fn opening_end(s: Seq<u8>, o: Opening, at: nat) -> Option<nat> {
    if s.len() < 4 {
        None
    } else if s.take(4) != o.magic() {
        Some(4)
    } else if s.len() < 6 {
        None
    } else if s[4] != VERSION {
        Some(6)
    } else if s.len() < at + 2 {
        None
    } else {
        let end = at + 2 + le_value(s.subrange(at as int, at + 2int));
        if s.len() < end {
            None
        } else {
            Some(end)
        }
    }
}

proof fn lemma_opening_end(s: Seq<u8>, t: Seq<u8>, o: Opening, at: nat)
    requires
        at >= 6,
    ensures
        opening_wants(s, o, at) == 0 <==> opening_end(s, o, at) is Some,
        opening_end(s, o, at) matches Some(e) ==> e <= s.len() && opening_end(s + t, o, at) == Some(
            e,
        ),
        opening_wants(s, o, at) > 0 ==> (opening_end(s + t, o, at) matches Some(e) ==> s.len()
            + opening_wants(s, o, at) <= e),
{
    let u = s + t;
    if s.len() >= 4 {
        assert(u.take(4) =~= s.take(4));
    }
    if s.len() >= at + 2 {
        assert(u.subrange(at as int, at + 2int) =~= s.subrange(at as int, at + 2int));
    }
}

/// How many bytes of `stream` are fetched, from `n` on, when every step fetches
/// what the opening message still wants, until it wants no more or the stream
/// holds no more.
pub open spec fn opening_fetched(stream: Seq<u8>, o: Opening, at: nat, n: nat) -> nat
    decreases stream.len() - n,
{
    let more = opening_wants(stream.take(n as int), o, at);
    if more == 0 || n + more > stream.len() {
        n
    } else {
        opening_fetched(stream, o, at, n + more)
    }
}

proof fn lemma_opening_fetched(stream: Seq<u8>, o: Opening, at: nat, n: nat)
    requires
        at >= 6,
        opening_end(stream, o, at) is Some,
        n <= opening_end(stream, o, at)->0,
    ensures
        opening_fetched(stream, o, at, n) == opening_end(stream, o, at)->0,
    decreases stream.len() - n,
{
    let end = opening_end(stream, o, at)->0;
    lemma_opening_end(stream, Seq::empty(), o, at);
    let got = stream.take(n as int);
    assert(got + stream.skip(n as int) =~= stream);
    lemma_opening_end(got, stream.skip(n as int), o, at);
    let more = opening_wants(got, o, at);
    if more > 0 {
        lemma_opening_fetched(stream, o, at, n + more);
    }
}

proof fn lemma_hello_end(s: Seq<u8>)
    ensures
        hello_reading(s).0 != Err::<HelloView, ProtoError>(ProtoError::UnexpectedEof)
            <==> opening_end(s, Opening::Agent, 14) is Some,
        opening_end(s, Opening::Agent, 14) matches Some(e) ==> hello_reading(s).1 == e,
{
    if s.len() >= 16 {
        assert(s.skip(14).take(2) =~= s.subrange(14, 16));
    }
}

proof fn lemma_client_hello_end(s: Seq<u8>)
    ensures
        client_hello_reading(s).0 != Err::<ClientHelloView, ProtoError>(ProtoError::UnexpectedEof)
            <==> opening_end(s, Opening::Client, 6) is Some,
        opening_end(s, Opening::Client, 6) matches Some(e) ==> client_hello_reading(s).1 == e,
{
    if s.len() >= 8 {
        assert(s.skip(6).take(2) =~= s.subrange(6, 8));
    }
}

proof fn lemma_filter_extends(s: Seq<u8>, t: Seq<u8>)
    requires
        filter_reading(s).0 != Err::<Seq<char>, ProtoError>(ProtoError::UnexpectedEof),
    ensures
        filter_reading(s + t) == filter_reading(s),
{
    let u = s + t;
    assert(u.take(2) =~= s.take(2));
    let end = 2 + le_value(s.take(2));
    assert(u.subrange(2, end as int) =~= s.subrange(2, end as int));
}

/// A `Hello` never wants more than a filter's length field can ask for.
pub proof fn lemma_hello_wants_bound(s: Seq<u8>)
    ensures
        hello_wants(s) <= 0xffff,
{
    lemma_pow256_values();
    if s.len() >= 16 {
        lemma_le_value_bound(s.subrange(14, 16));
    }
}

/// The bytes that `wanted` asks for are what a `Hello` needs: none are wanted
/// exactly where the bytes at hand show the message or its fault; and then what
/// follows them changes nothing.
pub proof fn law_hello_wanted(s: Seq<u8>, t: Seq<u8>)
    ensures
        hello_wants(s) == 0 <==> hello_reading(s).0 != Err::<HelloView, ProtoError>(
            ProtoError::UnexpectedEof,
        ),
        hello_wants(s) == 0 ==> hello_reading(s + t) == hello_reading(s),
{
    lemma_hello_end(s);
    lemma_opening_end(s, t, Opening::Agent, 14);
    if hello_wants(s) == 0 {
        let u = s + t;
        assert(u.take(4) =~= s.take(4));
        if preamble_fault(s, Opening::Agent) is None {
            assert(u.skip(14) =~= s.skip(14) + t);
            assert(u.subrange(6, 10) =~= s.subrange(6, 10));
            assert(u.subrange(10, 14) =~= s.subrange(10, 14));
            lemma_filter_extends(s.skip(14), t);
        }
    }
}

/// The bytes that `wanted` asks for are what a `ClientHello` needs: none are
/// wanted exactly where the bytes at hand show the message or its fault; and
/// then what follows them changes nothing.
pub proof fn law_client_hello_wanted(s: Seq<u8>, t: Seq<u8>)
    ensures
        client_hello_wants(s) == 0 <==> client_hello_reading(s).0 != Err::<
            ClientHelloView,
            ProtoError,
        >(ProtoError::UnexpectedEof),
        client_hello_wants(s) == 0 ==> client_hello_reading(s + t) == client_hello_reading(s),
{
    lemma_client_hello_end(s);
    lemma_opening_end(s, t, Opening::Client, 6);
    if client_hello_wants(s) == 0 {
        let u = s + t;
        assert(u.take(4) =~= s.take(4));
        if preamble_fault(s, Opening::Client) is None {
            assert(u.skip(6) =~= s.skip(6) + t);
            lemma_filter_extends(s.skip(6), t);
        }
    }
}

/// What `wanted` asks for never runs past the `Hello`, or past its fault, and asks
/// on until it is there: `n` bytes of a stream that shows either want no more than
/// the rest of it, and want nothing only where they are all of it.
pub proof fn law_hello_wants_no_more_than_itself(stream: Seq<u8>, n: nat)
    requires
        hello_reading(stream).0 != Err::<HelloView, ProtoError>(ProtoError::UnexpectedEof),
        n <= hello_reading(stream).1,
    ensures
        hello_reading(stream).1 <= stream.len(),
        n + hello_wants(stream.take(n as int)) <= hello_reading(stream).1,
        hello_wants(stream.take(n as int)) == 0 <==> n == hello_reading(stream).1,
{
    lemma_hello_end(stream);
    lemma_opening_end(stream, Seq::empty(), Opening::Agent, 14);
    let got = stream.take(n as int);
    let rest = stream.skip(n as int);
    assert(got + rest =~= stream);
    lemma_opening_end(got, rest, Opening::Agent, 14);
}

/// Fetching a `Hello` by what is wanted, step by step, takes off the stream
/// exactly the bytes that reading it whole takes off, and they read the same:
/// nothing of the frames behind it is touched.
pub proof fn law_hello_fetched_exactly(stream: Seq<u8>)
    requires
        hello_reading(stream).0 != Err::<HelloView, ProtoError>(ProtoError::UnexpectedEof),
    ensures
        opening_fetched(stream, Opening::Agent, 14, 0) == hello_reading(stream).1,
        hello_reading(stream.take(hello_reading(stream).1 as int)) == hello_reading(stream),
{
    lemma_hello_end(stream);
    lemma_opening_fetched(stream, Opening::Agent, 14, 0);
    let k = hello_reading(stream).1;
    let got = stream.take(k as int);
    lemma_opening_end(stream, Seq::empty(), Opening::Agent, 14);
    lemma_opening_end(got, stream.skip(k as int), Opening::Agent, 14);
    assert(got + stream.skip(k as int) =~= stream);
    law_hello_wanted(got, stream.skip(k as int));
}

/// Fetching a `ClientHello` by what is wanted, step by step, takes off the
/// stream exactly the bytes that reading it whole takes off, and they read the
/// same.
pub proof fn law_client_hello_fetched_exactly(stream: Seq<u8>)
    requires
        client_hello_reading(stream).0 != Err::<ClientHelloView, ProtoError>(
            ProtoError::UnexpectedEof,
        ),
    ensures
        opening_fetched(stream, Opening::Client, 6, 0) == client_hello_reading(stream).1,
        client_hello_reading(stream.take(client_hello_reading(stream).1 as int))
            == client_hello_reading(stream),
{
    lemma_client_hello_end(stream);
    lemma_opening_fetched(stream, Opening::Client, 6, 0);
    let k = client_hello_reading(stream).1;
    let got = stream.take(k as int);
    lemma_opening_end(stream, Seq::empty(), Opening::Client, 6);
    lemma_opening_end(got, stream.skip(k as int), Opening::Client, 6);
    assert(got + stream.skip(k as int) =~= stream);
    law_client_hello_wanted(got, stream.skip(k as int));
}

} // verus!
