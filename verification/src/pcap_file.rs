//! The libpcap file format, as far as writing it goes.

use vstd::arithmetic::div_mod::{lemma_mod_multiples_vanish, lemma_small_mod};
use vstd::prelude::*;

use crate::capture::{micros, PacketView};
use crate::frame::FrameView;
use crate::le::{
    bits_of_i32, i32_bits, law_signed_numbers_wrap_by_one_turn, law_u16_is_little_endian,
    law_u32_is_little_endian, le_bytes, le_value, lemma_le_bytes_len, lemma_pow256_values,
    lemma_value_of_bytes, put_u16, put_u32,
};
use crate::proto::FrameHeader;

verus! {

/// The magic of a file whose times are in microseconds.
pub const PCAP_MAGIC: u32 = 0xa1b2_c3d4;

/// The bytes that a file starts with: the magic, version 2.4, time zone 0,
/// accuracy 0, the snapshot length and the link type.
pub open spec fn file_header(link_type: i32, snaplen: u32) -> Seq<u8> {
    le_bytes(PCAP_MAGIC as nat, 4) + le_bytes(2, 2) + le_bytes(4, 2) + le_bytes(0, 4) + le_bytes(
        0,
        4,
    ) + le_bytes(snaplen as nat, 4) + le_bytes(i32_bits(link_type), 4)
}

/// A record of the file: a time, the two lengths and the data.
pub open spec fn raw_record(
    sec: nat,
    usec: nat,
    caplen: u32,
    origlen: u32,
    data: Seq<u8>,
) -> Seq<u8> {
    le_bytes(sec, 4) + le_bytes(usec, 4) + le_bytes(caplen as nat, 4) + le_bytes(origlen as nat, 4)
        + data
}

/// The record of a frame. Of the seconds, the low 32 bits are kept.
pub open spec fn record(f: FrameView) -> Seq<u8> {
    raw_record(
        ((f.header.ts_micros / 1_000_000) as nat) % 0x1_0000_0000,
        (f.header.ts_micros % 1_000_000) as nat,
        f.header.caplen,
        f.header.origlen,
        f.data,
    )
}

/// The records of frames, one behind the other.
pub open spec fn records(frames: Seq<FrameView>) -> Seq<u8>
    decreases frames.len(),
{
    if frames.len() == 0 {
        Seq::empty()
    } else {
        record(frames[0]) + records(frames.drop_first())
    }
}

/// Appends the bytes that a file starts with.
pub fn put_file_header(w: &mut Vec<u8>, link_type: i32, snaplen: u32)
    ensures
        final(w)@ == old(w)@ + file_header(link_type, snaplen),
{
    put_u32(w, PCAP_MAGIC);
    put_u16(w, 2);
    put_u16(w, 4);
    put_u32(w, 0);
    put_u32(w, 0);
    put_u32(w, snaplen);
    put_u32(w, bits_of_i32(link_type));
    assert(w@ =~= old(w)@ + file_header(link_type, snaplen));
}

/// Appends the record of a frame.
pub fn put_record(w: &mut Vec<u8>, h: &FrameHeader, data: &[u8])
    ensures
        final(w)@ == old(w)@ + record(FrameView { header: *h, data: data@ }),
{
    let sec: u32 = ((h.ts_micros / 1_000_000) % 0x1_0000_0000) as u32;
    let usec: u32 = (h.ts_micros % 1_000_000) as u32;
    put_u32(w, sec);
    put_u32(w, usec);
    put_u32(w, h.caplen);
    put_u32(w, h.origlen);
    w.extend_from_slice(data);
    assert(w@ =~= old(w)@ + record(FrameView { header: *h, data: data@ }));
}

/// A packet of a file, that is one whose time has a 32-bit count of seconds and
/// less than a second of microseconds, comes out as the record that it was.
pub proof fn law_packet_keeps_its_record(p: PacketView)
    requires
        0 <= p.tv_sec <= u32::MAX,
        0 <= p.tv_usec < 1_000_000,
    ensures
        record(p.frame()) == raw_record(
            p.tv_sec as nat,
            p.tv_usec as nat,
            p.caplen,
            p.len,
            p.data,
        ),
{
    let ts = micros(p.tv_sec as int, p.tv_usec as int);
    assert(ts == p.tv_sec * 1_000_000 + p.tv_usec);
    assert(ts / 1_000_000 == p.tv_sec);
    assert(ts % 1_000_000 == p.tv_usec);
}

/// What a file starts with reads back: 24 bytes, which are the magic of times in
/// microseconds, version 2.4, no time zone and no accuracy, then the snapshot
/// length and the bits of the link type, low bytes first.
pub proof fn law_file_header_reads_back(link_type: i32, snaplen: u32)
    ensures
        ({
            let s = file_header(link_type, snaplen);
            let network = le_value(s.subrange(20, 24));
            &&& s.len() == 24
            &&& s[0] == 0xd4 && s[1] == 0xc3 && s[2] == 0xb2 && s[3] == 0xa1
            &&& s[4] == 2 && s[5] == 0 && s[6] == 4 && s[7] == 0
            &&& forall|i: int| 8 <= i < 16 ==> #[trigger] s[i] == 0
            &&& le_value(s.subrange(16, 20)) == snaplen
            &&& s[16] + 0x100 * s[17] + 0x1_0000 * s[18] + 0x100_0000 * s[19] == snaplen
            &&& s[20] + 0x100 * s[21] + 0x1_0000 * s[22] + 0x100_0000 * s[23] == network
            &&& network == link_type || network == link_type + 0x1_0000_0000
        }),
{
    let s = file_header(link_type, snaplen);
    lemma_header_parts(link_type, snaplen);
    let bits = i32_bits(link_type);
    law_signed_numbers_wrap_by_one_turn(link_type, bits);
    law_u32_is_little_endian(PCAP_MAGIC as nat, s.take(4));
    law_u16_is_little_endian(2, s.subrange(4, 6));
    law_u16_is_little_endian(4, s.subrange(6, 8));
    law_u32_is_little_endian(0, s.subrange(8, 12));
    law_u32_is_little_endian(0, s.subrange(12, 16));
    law_u32_is_little_endian(snaplen as nat, s.subrange(16, 20));
    law_u32_is_little_endian(bits, s.subrange(20, 24));
    assert(s[0] == s.take(4)[0] && s[1] == s.take(4)[1] && s[2] == s.take(4)[2] && s[3] == s.take(
        4,
    )[3]);
    assert(s[4] == s.subrange(4, 6)[0] && s[5] == s.subrange(4, 6)[1]);
    assert(s[6] == s.subrange(6, 8)[0] && s[7] == s.subrange(6, 8)[1]);
    assert forall|i: int| 8 <= i < 16 implies #[trigger] s[i] == 0 by {
        if i < 12 {
            assert(s[i] == s.subrange(8, 12)[i - 8]);
        } else {
            assert(s[i] == s.subrange(12, 16)[i - 12]);
        }
    }
}

proof fn lemma_header_parts(link_type: i32, snaplen: u32)
    ensures
        ({
            let s = file_header(link_type, snaplen);
            &&& s.len() == 24
            &&& s.take(4) == le_bytes(PCAP_MAGIC as nat, 4)
            &&& s.subrange(4, 6) == le_bytes(2, 2)
            &&& s.subrange(6, 8) == le_bytes(4, 2)
            &&& s.subrange(8, 12) == le_bytes(0, 4)
            &&& s.subrange(12, 16) == le_bytes(0, 4)
            &&& s.subrange(16, 20) == le_bytes(snaplen as nat, 4)
            &&& s.subrange(20, 24) == le_bytes(i32_bits(link_type), 4)
        }),
{
    let s = file_header(link_type, snaplen);
    lemma_le_bytes_len(PCAP_MAGIC as nat, 4);
    lemma_le_bytes_len(2, 2);
    lemma_le_bytes_len(4, 2);
    lemma_le_bytes_len(0, 4);
    lemma_le_bytes_len(snaplen as nat, 4);
    lemma_le_bytes_len(i32_bits(link_type), 4);
    assert(s.take(4) =~= le_bytes(PCAP_MAGIC as nat, 4));
    assert(s.subrange(4, 6) =~= le_bytes(2, 2));
    assert(s.subrange(6, 8) =~= le_bytes(4, 2));
    assert(s.subrange(8, 12) =~= le_bytes(0, 4));
    assert(s.subrange(12, 16) =~= le_bytes(0, 4));
    assert(s.subrange(16, 20) =~= le_bytes(snaplen as nat, 4));
    assert(s.subrange(20, 24) =~= le_bytes(i32_bits(link_type), 4));
}

/// Files of different link types, or with different snapshot lengths, start
/// differently.
pub proof fn law_file_headers_are_told_apart(
    link_type: i32,
    snaplen: u32,
    other_link_type: i32,
    other_snaplen: u32,
)
    ensures
        file_header(link_type, snaplen) == file_header(other_link_type, other_snaplen)
            ==> link_type == other_link_type && snaplen == other_snaplen,
{
    law_file_header_reads_back(link_type, snaplen);
    law_file_header_reads_back(other_link_type, other_snaplen);
}

/// A record reads back: 16 bytes with the time, the captured length and the
/// original length, low bytes first, then the data.
pub proof fn law_raw_record_reads_back(
    sec: nat,
    usec: nat,
    caplen: u32,
    origlen: u32,
    data: Seq<u8>,
)
    requires
        sec < 0x1_0000_0000,
        usec < 0x1_0000_0000,
    ensures
        ({
            let s = raw_record(sec, usec, caplen, origlen, data);
            &&& s.len() == 16 + data.len()
            &&& le_value(s.subrange(0, 4)) == sec
            &&& le_value(s.subrange(4, 8)) == usec
            &&& le_value(s.subrange(8, 12)) == caplen
            &&& le_value(s.subrange(12, 16)) == origlen
            &&& s.skip(16) == data
        }),
{
    let s = raw_record(sec, usec, caplen, origlen, data);
    lemma_pow256_values();
    lemma_le_bytes_len(sec, 4);
    lemma_le_bytes_len(usec, 4);
    lemma_le_bytes_len(caplen as nat, 4);
    lemma_le_bytes_len(origlen as nat, 4);
    lemma_value_of_bytes(sec, 4);
    lemma_value_of_bytes(usec, 4);
    lemma_value_of_bytes(caplen as nat, 4);
    lemma_value_of_bytes(origlen as nat, 4);
    assert(s.subrange(0, 4) =~= le_bytes(sec, 4));
    assert(s.subrange(4, 8) =~= le_bytes(usec, 4));
    assert(s.subrange(8, 12) =~= le_bytes(caplen as nat, 4));
    assert(s.subrange(12, 16) =~= le_bytes(origlen as nat, 4));
    assert(s.skip(16) =~= data);
}

/// The record of a frame holds the frame: its data behind its two lengths, and a
/// time whose seconds and microseconds come to the frame's, but for whole turns of
/// the seconds' 32 bits.
pub proof fn law_record_holds_its_frame(f: FrameView)
    ensures
        ({
            let s = record(f);
            let sec = le_value(s.subrange(0, 4));
            let usec = le_value(s.subrange(4, 8));
            let ts = f.header.ts_micros as int;
            &&& s.len() == 16 + f.data.len()
            &&& usec < 1_000_000
            &&& (ts - (sec * 1_000_000 + usec)) % 4_294_967_296_000_000int == 0
            &&& ts < 4_294_967_296_000_000 ==> sec * 1_000_000 + usec == ts
            &&& le_value(s.subrange(8, 12)) == f.header.caplen
            &&& le_value(s.subrange(12, 16)) == f.header.origlen
            &&& s.skip(16) == f.data
        }),
{
    let ts = f.header.ts_micros as int;
    let whole = ts / 1_000_000;
    let usec = ts % 1_000_000;
    let sec = whole % 0x1_0000_0000;
    law_raw_record_reads_back(
        sec as nat,
        usec as nat,
        f.header.caplen,
        f.header.origlen,
        f.data,
    );
    let turns = whole / 0x1_0000_0000;
    let turn: int = 4_294_967_296_000_000;
    assert(ts - (sec * 1_000_000 + usec) == turn * turns + 0);
    lemma_mod_multiples_vanish(turns, 0, turn);
    lemma_small_mod(0, turn as nat);
}

/// The records of more frames follow those of the first.
pub proof fn law_records_follow_one_another(frames: Seq<FrameView>, more: Seq<FrameView>)
    ensures
        records(frames + more) == records(frames) + records(more),
        forall|f: FrameView| records(seq![f]) == #[trigger] record(f),
        records(Seq::<FrameView>::empty()) == Seq::<u8>::empty(),
    decreases frames.len(),
{
    assert forall|f: FrameView| records(seq![f]) == #[trigger] record(f) by {
        assert(seq![f].drop_first() =~= Seq::<FrameView>::empty());
        assert(records(Seq::<FrameView>::empty()) =~= Seq::<u8>::empty());
        assert(records(seq![f]) =~= record(f));
    }
    if frames.len() == 0 {
        assert(frames + more =~= more);
        assert(records(frames) + records(more) =~= records(more));
    } else {
        law_records_follow_one_another(frames.drop_first(), more);
        assert((frames + more).drop_first() =~= frames.drop_first() + more);
        assert(records(frames + more) =~= records(frames) + records(more));
    }
}

} // verus!
