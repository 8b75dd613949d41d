//! The wire format byte by byte.

use vstd::prelude::*;
use vstd::utf8::*;

use crate::frame::{frames_encoding, FrameView};
use crate::le::{
    i32_bits, law_signed_numbers_wrap_by_one_turn, law_u16_is_little_endian,
    law_u32_is_little_endian, law_u64_is_little_endian, lemma_le_bytes_len,
};
use crate::proto::{
    client_hello_reading, filter_fits, filter_reading, frame_header_reading, hello_reading,
    preamble, ClientHelloView, ErrorKind, FrameHeader, HelloView, Opening, ProtoError, MAGIC,
    MAGIC_CLIENT, MAX_CAPLEN,
};
use crate::proto_laws::law_frame_header_reads_back;
use crate::text::decimal;

verus! {

proof fn lemma_magic_bytes(s: Seq<u8>)
    requires
        s.len() >= 4,
    ensures
        s.take(4) == Opening::Agent.magic() <==> s[0] == 0x53 && s[1] == 0x45 && s[2] == 0x51
            && s[3] == 0x41,
        s.take(4) == Opening::Client.magic() <==> s[0] == 0x53 && s[1] == 0x45 && s[2] == 0x51
            && s[3] == 0x43,
{
    let t = s.take(4);
    assert(t[0] == s[0] && t[1] == s[1] && t[2] == s[2] && t[3] == s[3]);
    assert(MAGIC@[0] == 0x53 && MAGIC@[1] == 0x45 && MAGIC@[2] == 0x51 && MAGIC@[3] == 0x41);
    assert(MAGIC_CLIENT@[0] == 0x53 && MAGIC_CLIENT@[1] == 0x45 && MAGIC_CLIENT@[2] == 0x51
        && MAGIC_CLIENT@[3] == 0x43);
    if s[0] == 0x53 && s[1] == 0x45 && s[2] == 0x51 && s[3] == 0x41 {
        assert(t =~= MAGIC@);
    }
    if s[0] == 0x53 && s[1] == 0x45 && s[2] == 0x51 && s[3] == 0x43 {
        assert(t =~= MAGIC_CLIENT@);
    }
}

proof fn lemma_filter_bytes(s: Seq<u8>)
    ensures
        ({
            let (res, used) = filter_reading(s);
            let n = s[0] + 0x100 * s[1];
            if s.len() < 2 || s.len() < 2 + n {
                res == Err::<Seq<char>, ProtoError>(ProtoError::UnexpectedEof) && used == s.len()
            } else {
                let bytes = s.subrange(2, 2 + n);
                &&& used == 2 + n
                &&& match res {
                    Ok(filter) => valid_utf8(bytes) && encode_utf8(filter) == bytes,
                    Err(e) => !valid_utf8(bytes) && e == ProtoError::FilterNotUtf8,
                }
            }
        }),
{
    if s.len() >= 2 {
        law_u16_is_little_endian(0, s.take(2));
        assert(s.take(2)[0] == s[0] && s.take(2)[1] == s[1]);
        let n = s[0] + 0x100 * s[1];
        if s.len() >= 2 + n && valid_utf8(s.subrange(2, 2 + n)) {
            decode_utf8_encode_utf8(s.subrange(2, 2 + n));
        }
    }
}

/// What the bytes at the front of a stream are read as, where a `Hello` should be:
/// `SEQA`, the version 1, a byte that does not matter, the link type and the
/// snapshot length in four bytes each, and the filter's UTF-8 behind its length in
/// two; low bytes come first. The first of these that is not as it should be, or
/// not there, is the fault.
pub proof fn law_hello_is_read_from_its_bytes(s: Seq<u8>)
    ensures
        ({
            let (res, used) = hello_reading(s);
            let n = s[14] + 0x100 * s[15];
            let bits = s[6] + 0x100 * s[7] + 0x1_0000 * s[8] + 0x100_0000 * s[9];
            if s.len() < 4 {
                res == Err::<HelloView, ProtoError>(ProtoError::UnexpectedEof) && used == s.len()
            } else if s[0] != 0x53 || s[1] != 0x45 || s[2] != 0x51 || s[3] != 0x41 {
                res == Err::<HelloView, ProtoError>(ProtoError::BadMagic(Opening::Agent)) && used
                    == 4
            } else if s.len() < 6 {
                res == Err::<HelloView, ProtoError>(ProtoError::UnexpectedEof) && used == s.len()
            } else if s[4] != 1 {
                res == Err::<HelloView, ProtoError>(
                    ProtoError::UnsupportedVersion(Opening::Agent, s[4]),
                ) && used == 6
            } else if s.len() < 16 || s.len() < 16 + n {
                res == Err::<HelloView, ProtoError>(ProtoError::UnexpectedEof) && used == s.len()
            } else {
                let filter = s.subrange(16, 16 + n);
                &&& used == 16 + n
                &&& match res {
                    Ok(h) => {
                        &&& h.link_type == bits || h.link_type == bits - 0x1_0000_0000
                        &&& h.snaplen == s[10] + 0x100 * s[11] + 0x1_0000 * s[12] + 0x100_0000
                            * s[13]
                        &&& valid_utf8(filter)
                        &&& encode_utf8(h.filter) == filter
                    },
                    Err(e) => !valid_utf8(filter) && e == ProtoError::FilterNotUtf8,
                }
            }
        }),
{
    if s.len() >= 4 {
        lemma_magic_bytes(s);
    }
    if s.len() >= 14 {
        let rest = s.skip(14);
        lemma_filter_bytes(rest);
        let bits = s.subrange(6, 10);
        let snap = s.subrange(10, 14);
        law_u32_is_little_endian(0, bits);
        law_u32_is_little_endian(0, snap);
        assert(bits[0] == s[6] && bits[1] == s[7] && bits[2] == s[8] && bits[3] == s[9]);
        assert(snap[0] == s[10] && snap[1] == s[11] && snap[2] == s[12] && snap[3] == s[13]);
        law_signed_numbers_wrap_by_one_turn(
            0,
            (s[6] + 0x100 * s[7] + 0x1_0000 * s[8] + 0x100_0000 * s[9]) as nat,
        );
        if s.len() >= 16 {
            let n = s[14] + 0x100 * s[15];
            assert(rest[0] == s[14] && rest[1] == s[15]);
            if s.len() >= 16 + n {
                assert(rest.subrange(2, 2 + n) =~= s.subrange(16, 16 + n));
            }
        }
    }
}

/// What the bytes at the front of a stream are read as, where a `ClientHello`
/// should be: `SEQC`, the version 1, a byte that does not matter, and the filter's
/// UTF-8 behind its length in two bytes, the low one first. The first of these that
/// is not as it should be, or not there, is the fault.
pub proof fn law_client_hello_is_read_from_its_bytes(s: Seq<u8>)
    ensures
        ({
            let (res, used) = client_hello_reading(s);
            let n = s[6] + 0x100 * s[7];
            if s.len() < 4 {
                res == Err::<ClientHelloView, ProtoError>(ProtoError::UnexpectedEof) && used
                    == s.len()
            } else if s[0] != 0x53 || s[1] != 0x45 || s[2] != 0x51 || s[3] != 0x43 {
                res == Err::<ClientHelloView, ProtoError>(ProtoError::BadMagic(Opening::Client))
                    && used == 4
            } else if s.len() < 6 {
                res == Err::<ClientHelloView, ProtoError>(ProtoError::UnexpectedEof) && used
                    == s.len()
            } else if s[4] != 1 {
                res == Err::<ClientHelloView, ProtoError>(
                    ProtoError::UnsupportedVersion(Opening::Client, s[4]),
                ) && used == 6
            } else if s.len() < 8 || s.len() < 8 + n {
                res == Err::<ClientHelloView, ProtoError>(ProtoError::UnexpectedEof) && used
                    == s.len()
            } else {
                let filter = s.subrange(8, 8 + n);
                &&& used == 8 + n
                &&& match res {
                    Ok(h) => valid_utf8(filter) && encode_utf8(h.filter) == filter,
                    Err(e) => !valid_utf8(filter) && e == ProtoError::FilterNotUtf8,
                }
            }
        }),
{
    if s.len() >= 4 {
        lemma_magic_bytes(s);
    }
    if s.len() >= 6 {
        let rest = s.skip(6);
        lemma_filter_bytes(rest);
        if s.len() >= 8 {
            let n = s[6] + 0x100 * s[7];
            assert(rest[0] == s[6] && rest[1] == s[7]);
            if s.len() >= 8 + n {
                assert(rest.subrange(2, 2 + n) =~= s.subrange(8, 8 + n));
            }
        }
    }
}

/// What sixteen bytes are read as, where a frame header should be: the time in
/// eight bytes, then the captured and the original length in four each, low bytes
/// first.
pub proof fn law_frame_header_is_read_from_its_bytes(s: Seq<u8>)
    ensures
        ({
            let (res, used) = frame_header_reading(s);
            if s.len() < 16 {
                res == Err::<FrameHeader, ProtoError>(ProtoError::UnexpectedEof) && used == s.len()
            } else {
                &&& used == 16
                &&& res matches Ok(h)
                &&& h.ts_micros == s[0] + 0x100 * s[1] + 0x1_0000 * s[2] + 0x100_0000 * s[3]
                    + 0x1_0000_0000 * (s[4] + 0x100 * s[5] + 0x1_0000 * s[6] + 0x100_0000 * s[7])
                &&& h.caplen == s[8] + 0x100 * s[9] + 0x1_0000 * s[10] + 0x100_0000 * s[11]
                &&& h.origlen == s[12] + 0x100 * s[13] + 0x1_0000 * s[14] + 0x100_0000 * s[15]
            }
        }),
{
    if s.len() >= 16 {
        let ts = s.take(8);
        let cap = s.subrange(8, 12);
        let orig = s.subrange(12, 16);
        law_u64_is_little_endian(0, ts);
        law_u32_is_little_endian(0, cap);
        law_u32_is_little_endian(0, orig);
        assert(ts[0] == s[0] && ts[1] == s[1] && ts[2] == s[2] && ts[3] == s[3]);
        assert(ts[4] == s[4] && ts[5] == s[5] && ts[6] == s[6] && ts[7] == s[7]);
        assert(cap[0] == s[8] && cap[1] == s[9] && cap[2] == s[10] && cap[3] == s[11]);
        assert(orig[0] == s[12] && orig[1] == s[13] && orig[2] == s[14] && orig[3] == s[15]);
    }
}

/// A filter fits if its UTF-8 has no more than 65535 bytes. A `Hello` is sixteen
/// bytes and its filter's; the first fourteen are its head, with the flags 0.
pub proof fn law_hello_has_these_bytes(h: HelloView)
    ensures
        filter_fits(h.filter) <==> encode_utf8(h.filter).len() <= 65535,
        h.encoding().len() == 16 + encode_utf8(h.filter).len(),
        h.encoding()[5] == 0,
        h.head() == h.encoding().take(14),
{
    lemma_le_bytes_len(i32_bits(h.link_type), 4);
    lemma_le_bytes_len(h.snaplen as nat, 4);
    lemma_le_bytes_len(encode_utf8(h.filter).len(), 2);
    assert(h.head() =~= h.encoding().take(14));
    assert(h.encoding()[5] == preamble(Opening::Agent)[5]);
}

/// A `ClientHello` is eight bytes and its filter's, with the flags 0.
pub proof fn law_client_hello_has_these_bytes(h: ClientHelloView)
    ensures
        h.encoding().len() == 8 + encode_utf8(h.filter).len(),
        h.encoding()[5] == 0,
{
    lemma_le_bytes_len(encode_utf8(h.filter).len(), 2);
    assert(h.encoding()[5] == preamble(Opening::Client)[5]);
}

/// A frame on the wire is its header and then its data; frames follow one another
/// with nothing between.
pub proof fn law_frames_follow_one_another(
    f: FrameView,
    frames: Seq<FrameView>,
    more: Seq<FrameView>,
)
    ensures
        f.encoding().len() == 16 + f.data.len(),
        f.encoding().skip(16) == f.data,
        frame_header_reading(f.encoding()).0 == Ok::<FrameHeader, ProtoError>(f.header),
        frames_encoding(Seq::<FrameView>::empty()).len() == 0,
        frames_encoding(seq![f]) == f.encoding(),
        frames_encoding(frames + more) == frames_encoding(frames) + frames_encoding(more),
    decreases frames.len(),
{
    law_frame_header_reads_back(f.header, f.data);
    assert(f.encoding().skip(16) =~= f.data);
    assert(seq![f].drop_first() =~= Seq::<FrameView>::empty());
    assert(frames_encoding(Seq::<FrameView>::empty()) =~= Seq::<u8>::empty());
    assert(frames_encoding(seq![f]) =~= f.encoding());
    if frames.len() == 0 {
        assert(frames + more =~= more);
        assert(frames_encoding(frames) + frames_encoding(more) =~= frames_encoding(more));
    } else {
        law_frames_follow_one_another(f, frames.drop_first(), more);
        assert((frames + more).drop_first() =~= frames.drop_first() + more);
        assert(frames_encoding(frames + more) =~= frames_encoding(frames) + frames_encoding(more));
    }
}

/// A frame can be delivered if its header tells the length of its data and that is
/// no more than 256 KiB.
pub proof fn law_frames_have_a_limit(f: FrameView)
    ensures
        MAX_CAPLEN == 262_144,
        f.deliverable() <==> f.header.caplen == f.data.len() && f.data.len() <= 262_144,
{
}

/// Which faults are whose: a filter that is too long is the caller's, an end too
/// soon is the stream's, and all else is in the data.
pub proof fn law_errors_have_kinds(e: ProtoError)
    ensures
        e.class() == ErrorKind::InvalidInput <==> e is FilterTooLong,
        e.class() == ErrorKind::UnexpectedEof <==> e is UnexpectedEof,
        e.class() == ErrorKind::InvalidData <==> e is BadMagic || e is UnsupportedVersion
            || e is FilterNotUtf8,
{
}

/// The faults in words.
pub proof fn law_errors_in_words(v: u8)
    ensures
        ProtoError::UnexpectedEof.text() == "failed to fill whole buffer"@,
        ProtoError::FilterNotUtf8.text() == "filter not UTF-8"@,
        ProtoError::FilterTooLong.text() == "filter too long"@,
        ProtoError::BadMagic(Opening::Agent).text() == "bad SEQA magic"@,
        ProtoError::BadMagic(Opening::Client).text() == "bad SEQC magic"@,
        ProtoError::UnsupportedVersion(Opening::Agent, v).text() == "unsupported SEQA version "@
            + decimal(v as nat),
        ProtoError::UnsupportedVersion(Opening::Client, v).text() == "unsupported SEQC version "@
            + decimal(v as nat),
{
    reveal_strlit("bad ");
    reveal_strlit("SEQA");
    reveal_strlit("SEQC");
    reveal_strlit(" magic");
    reveal_strlit("bad SEQA magic");
    reveal_strlit("bad SEQC magic");
    reveal_strlit("unsupported ");
    reveal_strlit(" version ");
    reveal_strlit("unsupported SEQA version ");
    reveal_strlit("unsupported SEQC version ");
    assert("bad "@ + "SEQA"@ + " magic"@ =~= "bad SEQA magic"@);
    assert("bad "@ + "SEQC"@ + " magic"@ =~= "bad SEQC magic"@);
    assert("unsupported "@ + "SEQA"@ + " version "@ =~= "unsupported SEQA version "@);
    assert("unsupported "@ + "SEQC"@ + " version "@ =~= "unsupported SEQC version "@);
}

} // verus!
