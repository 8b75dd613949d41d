//! The SEQA wire protocol: the framing between the agent, which captures and
//! forwards, and whoever consumes its stream.
//!
//! All integers are little-endian. The dialing side may open with a
//! `ClientHello` naming the BPF filter it wants; the agent answers with its
//! `Hello` (link type and the filter actually applied) and streams frames.
//!
//! ```text
//! ClientHello (client -> agent, optional, first thing on connect):
//!   magic     [u8;4]  "SEQC"
//!   version   u8      = 1
//!   flags     u8      reserved, 0
//!   filt_len  u16
//!   filter    [u8; filt_len]   requested BPF string (UTF-8), may be empty
//!
//! Hello (agent -> client, once, after any ClientHello):
//!   magic     [u8;4]  "SEQA"
//!   version   u8      = 1
//!   flags     u8      reserved, 0
//!   link_type i32     pcap DLT (EN10MB=1, LINUX_SLL=113, ...)
//!   snaplen   u32
//!   filt_len  u16
//!   filter    [u8; filt_len]   BPF string actually applied (UTF-8), may be empty
//!
//! Frame (agent -> client, repeated until EOF):
//!   ts_micros u64     unix time, microseconds
//!   caplen    u32     captured bytes (== data length)
//!   origlen   u32     original on-wire length
//!   data      [u8; caplen]
//! ```

use vstd::prelude::*;
use vstd::slice::{slice_subrange, slice_to_vec};
use vstd::string::*;
use vstd::utf8::*;

use crate::le::{
    bits_of_i32, get_le, i32_bits, i32_from_bits, i32_of_bits, le_bytes, le_value, lemma_pow256_values,
    put_u16, put_u32, put_u64,
};
use crate::text::{decimal, decimal_string, string_from_utf8};

verus! {

pub const MAGIC: [u8; 4] = [0x53, 0x45, 0x51, 0x41];

pub const MAGIC_CLIENT: [u8; 4] = [0x53, 0x45, 0x51, 0x43];

pub const VERSION: u8 = 1;

/// The longest frame that a consumer accepts: absurd lengths in a corrupt or
/// hostile stream are refused before anything is allocated for them.
pub const MAX_CAPLEN: u32 = 262_144;

/// The two kinds of opening message.
#[derive(Debug, Clone, Copy, PartialEq, Eq, Structural)]
pub enum Opening {
    /// The agent's `Hello`.
    Agent,
    /// The dialing side's `ClientHello`.
    Client,
}

impl Opening {
    pub open spec fn magic(self) -> Seq<u8> {
        match self {
            Opening::Agent => MAGIC@,
            Opening::Client => MAGIC_CLIENT@,
        }
    }

    /// The magic, as letters.
    pub open spec fn tag(self) -> Seq<char> {
        match self {
            Opening::Agent => "SEQA"@,
            Opening::Client => "SEQC"@,
        }
    }
}

/// What can be wrong with a message.
#[derive(Debug, Clone, Copy, PartialEq, Eq, Structural)]
pub enum ProtoError {
    /// The bytes end before the message does.
    UnexpectedEof,
    /// The message does not start with its magic.
    BadMagic(Opening),
    /// The message has another version than this one speaks.
    UnsupportedVersion(Opening, u8),
    /// The filter's bytes are not UTF-8.
    FilterNotUtf8,
    /// The filter's length does not fit its length field.
    FilterTooLong,
}

/// How an error is classed.
#[derive(Debug, Clone, Copy, PartialEq, Eq, Structural)]
pub enum ErrorKind {
    InvalidInput,
    InvalidData,
    UnexpectedEof,
}

impl ProtoError {
    pub open spec fn text(self) -> Seq<char> {
        match self {
            ProtoError::UnexpectedEof => "failed to fill whole buffer"@,
            ProtoError::BadMagic(o) => "bad "@ + o.tag() + " magic"@,
            ProtoError::UnsupportedVersion(o, v) => "unsupported "@ + o.tag() + " version "@
                + decimal(v as nat),
            ProtoError::FilterNotUtf8 => "filter not UTF-8"@,
            ProtoError::FilterTooLong => "filter too long"@,
        }
    }

    /// The fault in words.
    pub fn message(&self) -> (text: String)
        ensures
            text@ == self.text(),
    {
        match self {
            ProtoError::UnexpectedEof => "failed to fill whole buffer".to_owned(),
            ProtoError::BadMagic(o) => {
                let mut s: String = "bad ".to_owned();
                s.append(o.tag_text());
                s.append(" magic");
                s
            },
            ProtoError::UnsupportedVersion(o, v) => {
                let mut s: String = "unsupported ".to_owned();
                s.append(o.tag_text());
                s.append(" version ");
                s.append(decimal_string(*v as u64).as_str());
                s
            },
            ProtoError::FilterNotUtf8 => "filter not UTF-8".to_owned(),
            ProtoError::FilterTooLong => "filter too long".to_owned(),
        }
    }

    pub open spec fn class(self) -> ErrorKind {
        match self {
            ProtoError::UnexpectedEof => ErrorKind::UnexpectedEof,
            ProtoError::FilterTooLong => ErrorKind::InvalidInput,
            _ => ErrorKind::InvalidData,
        }
    }

    /// Whether the input, the data or their end is at fault.
    pub fn kind(&self) -> (kind: ErrorKind)
        ensures
            kind == self.class(),
    {
        match self {
            ProtoError::UnexpectedEof => ErrorKind::UnexpectedEof,
            ProtoError::FilterTooLong => ErrorKind::InvalidInput,
            _ => ErrorKind::InvalidData,
        }
    }
}

impl Opening {
    fn tag_text(&self) -> (text: &'static str)
        ensures
            text@ == self.tag(),
    {
        match self {
            Opening::Agent => "SEQA",
            Opening::Client => "SEQC",
        }
    }
}

// ---- the format, as a relation between bytes and values ----

/// The first six bytes of an opening message.
pub open spec fn preamble(o: Opening) -> Seq<u8> {
    o.magic() + seq![VERSION, 0u8]
}

/// A filter: its length in bytes, then the bytes.
pub open spec fn filter_encoding(filter: Seq<char>) -> Seq<u8> {
    le_bytes(encode_utf8(filter).len(), 2) + encode_utf8(filter)
}

/// Whether the filter's length fits its length field.
pub open spec fn filter_fits(filter: Seq<char>) -> bool {
    encode_utf8(filter).len() <= u16::MAX
}

/// What reading a value off the front of some bytes comes to: the value or the
/// fault, and how many bytes are taken off.
pub type Reading<T> = (Result<T, ProtoError>, nat);

/// The fault of a preamble at the front of `s`, where it has one.
pub open spec fn preamble_fault(s: Seq<u8>, o: Opening) -> Option<(ProtoError, nat)> {
    if s.len() < 4 {
        Some((ProtoError::UnexpectedEof, s.len()))
    } else if s.take(4) != o.magic() {
        Some((ProtoError::BadMagic(o), 4))
    } else if s.len() < 6 {
        Some((ProtoError::UnexpectedEof, s.len()))
    } else if s[4] != VERSION {
        Some((ProtoError::UnsupportedVersion(o, s[4]), 6))
    } else {
        None
    }
}

/// Reads a filter off the front of `s`.
pub open spec fn filter_reading(s: Seq<u8>) -> Reading<Seq<char>> {
    if s.len() < 2 {
        (Err(ProtoError::UnexpectedEof), s.len())
    } else {
        let end = 2 + le_value(s.take(2));
        if s.len() < end {
            (Err(ProtoError::UnexpectedEof), s.len())
        } else if !valid_utf8(s.subrange(2, end as int)) {
            (Err(ProtoError::FilterNotUtf8), end)
        } else {
            (Ok(decode_utf8(s.subrange(2, end as int))), end)
        }
    }
}

/// What a `Hello` says.
pub struct HelloView {
    pub link_type: i32,
    pub snaplen: u32,
    pub filter: Seq<char>,
}

impl HelloView {
    /// The bytes before the filter.
    pub open spec fn head(self) -> Seq<u8> {
        preamble(Opening::Agent) + le_bytes(i32_bits(self.link_type), 4) + le_bytes(
            self.snaplen as nat,
            4,
        )
    }

    /// The message's bytes.
    pub open spec fn encoding(self) -> Seq<u8> {
        self.head() + filter_encoding(self.filter)
    }
}

/// Reads a `Hello` off the front of `s`.
pub open spec fn hello_reading(s: Seq<u8>) -> Reading<HelloView> {
    match preamble_fault(s, Opening::Agent) {
        Some((e, used)) => (Err(e), used),
        None => if s.len() < 14 {
            (Err(ProtoError::UnexpectedEof), s.len())
        } else {
            match filter_reading(s.skip(14)) {
                (Err(e), used) => (Err(e), 14 + used),
                (Ok(filter), used) => (
                    Ok(
                        HelloView {
                            link_type: i32_of_bits(le_value(s.subrange(6, 10))) as i32,
                            snaplen: le_value(s.subrange(10, 14)) as u32,
                            filter,
                        },
                    ),
                    14 + used,
                ),
            }
        },
    }
}

/// What a `ClientHello` says.
pub struct ClientHelloView {
    pub filter: Seq<char>,
}

impl ClientHelloView {
    /// The message's bytes.
    pub open spec fn encoding(self) -> Seq<u8> {
        preamble(Opening::Client) + filter_encoding(self.filter)
    }
}

/// Reads a `ClientHello` off the front of `s`.
pub open spec fn client_hello_reading(s: Seq<u8>) -> Reading<ClientHelloView> {
    match preamble_fault(s, Opening::Client) {
        Some((e, used)) => (Err(e), used),
        None => match filter_reading(s.skip(6)) {
            (Err(e), used) => (Err(e), 6 + used),
            (Ok(filter), used) => (Ok(ClientHelloView { filter }), 6 + used),
        },
    }
}

/// How many more bytes than `s` are certain to be needed before an opening
/// message whose filter stands behind `at` bytes can be judged; 0 once it can.
pub open spec fn opening_wants(s: Seq<u8>, o: Opening, at: nat) -> nat {
    if s.len() < 4 {
        (4 - s.len()) as nat
    } else if s.take(4) != o.magic() {
        0
    } else if s.len() < 6 {
        (6 - s.len()) as nat
    } else if s[4] != VERSION {
        0
    } else if s.len() < at + 2 {
        (at + 2 - s.len()) as nat
    } else {
        let end = at + 2 + le_value(s.subrange(at as int, at + 2int));
        if s.len() < end {
            (end - s.len()) as nat
        } else {
            0
        }
    }
}

pub open spec fn hello_wants(s: Seq<u8>) -> nat {
    opening_wants(s, Opening::Agent, 14)
}

pub open spec fn client_hello_wants(s: Seq<u8>) -> nat {
    opening_wants(s, Opening::Client, 6)
}

// ---- reading and writing ----

/// Takes exactly `n` bytes off the front; where there are fewer, takes them all.
fn take<'a>(r: &mut &'a [u8], n: usize) -> (res: Result<&'a [u8], ProtoError>)
    ensures
        match res {
            Ok(s) => n <= old(r)@.len() && s@ == old(r)@.take(n as int) && final(r)@ == old(
                r,
            )@.skip(n as int),
            Err(e) => old(r)@.len() < n && e == ProtoError::UnexpectedEof && final(r)@ == old(
                r,
            )@.skip(old(r)@.len() as int),
        },
{
    let all: &'a [u8] = *r;
    let len: usize = all.len();
    if len < n {
        *r = slice_subrange(all, len, len);
        Err(ProtoError::UnexpectedEof)
    } else {
        *r = slice_subrange(all, n, len);
        Ok(slice_subrange(all, 0, n))
    }
}

/// Reads two bytes as a number.
pub fn read_u16(r: &mut &[u8]) -> (res: Result<u16, ProtoError>)
    ensures
        match res {
            Ok(v) => 2 <= old(r)@.len() && v == le_value(old(r)@.take(2)) && final(r)@ == old(
                r,
            )@.skip(2),
            Err(e) => old(r)@.len() < 2 && e == ProtoError::UnexpectedEof && final(r)@ == old(
                r,
            )@.skip(old(r)@.len() as int),
        },
{
    proof {
        lemma_pow256_values();
    }
    match take(r, 2) {
        Ok(s) => Ok(get_le(s) as u16),
        Err(e) => Err(e),
    }
}

/// Reads four bytes as a number.
pub fn read_u32(r: &mut &[u8]) -> (res: Result<u32, ProtoError>)
    ensures
        match res {
            Ok(v) => 4 <= old(r)@.len() && v == le_value(old(r)@.take(4)) && final(r)@ == old(
                r,
            )@.skip(4),
            Err(e) => old(r)@.len() < 4 && e == ProtoError::UnexpectedEof && final(r)@ == old(
                r,
            )@.skip(old(r)@.len() as int),
        },
{
    proof {
        lemma_pow256_values();
    }
    match take(r, 4) {
        Ok(s) => Ok(get_le(s) as u32),
        Err(e) => Err(e),
    }
}

/// Reads four bytes as a signed number.
pub fn read_i32(r: &mut &[u8]) -> (res: Result<i32, ProtoError>)
    ensures
        match res {
            Ok(v) => 4 <= old(r)@.len() && v == i32_of_bits(le_value(old(r)@.take(4)))
                && final(r)@ == old(r)@.skip(4),
            Err(e) => old(r)@.len() < 4 && e == ProtoError::UnexpectedEof && final(r)@ == old(
                r,
            )@.skip(old(r)@.len() as int),
        },
{
    match read_u32(r) {
        Ok(bits) => Ok(i32_from_bits(bits)),
        Err(e) => Err(e),
    }
}

/// Reads eight bytes as a number.
pub fn read_u64(r: &mut &[u8]) -> (res: Result<u64, ProtoError>)
    ensures
        match res {
            Ok(v) => 8 <= old(r)@.len() && v == le_value(old(r)@.take(8)) && final(r)@ == old(
                r,
            )@.skip(8),
            Err(e) => old(r)@.len() < 8 && e == ProtoError::UnexpectedEof && final(r)@ == old(
                r,
            )@.skip(old(r)@.len() as int),
        },
{
    match take(r, 8) {
        Ok(s) => Ok(get_le(s)),
        Err(e) => Err(e),
    }
}

/// Whether four bytes are the magic of an opening message.
fn is_magic(s: &[u8], o: Opening) -> (yes: bool)
    requires
        s@.len() == 4,
    ensures
        yes == (s@ == o.magic()),
{
    let m: [u8; 4] = match o {
        Opening::Agent => MAGIC,
        Opening::Client => MAGIC_CLIENT,
    };
    assert(s@ == m@ <==> s@[0] == m@[0] && s@[1] == m@[1] && s@[2] == m@[2] && s@[3] == m@[3]) by {
        if s@[0] == m@[0] && s@[1] == m@[1] && s@[2] == m@[2] && s@[3] == m@[3] {
            assert(s@ =~= m@);
        }
    }
    s[0] == m[0] && s[1] == m[1] && s[2] == m[2] && s[3] == m[3]
}

/// Reads the magic, the version and the flags of an opening message.
fn read_preamble(r: &mut &[u8], o: Opening) -> (res: Result<(), ProtoError>)
    ensures
        match (res, preamble_fault(old(r)@, o)) {
            (Ok(_), None) => final(r)@ == old(r)@.skip(6),
            (Err(e), Some((f, used))) => e == f && final(r)@ == old(r)@.skip(used as int),
            _ => false,
        },
{
    let ghost all = r@;
    let magic: &[u8] = match take(r, 4) {
        Ok(s) => s,
        Err(e) => {
            return Err(e);
        },
    };
    if !is_magic(magic, o) {
        return Err(ProtoError::BadMagic(o));
    }
    let vf: &[u8] = match take(r, 2) {
        Ok(s) => s,
        Err(e) => {
            assert(all.skip(4).skip(all.len() - 4) =~= all.skip(all.len() as int));
            return Err(e);
        },
    };
    assert(all.skip(4).skip(2) =~= all.skip(6));
    assert(vf@[0] == all[4]);
    if vf[0] != VERSION {
        return Err(ProtoError::UnsupportedVersion(o, vf[0]));
    }
    Ok(())
}

/// Reads a filter's length and the filter.
fn read_filter(r: &mut &[u8]) -> (res: Result<String, ProtoError>)
    ensures
        match (res, filter_reading(old(r)@).0) {
            (Ok(f), Ok(want)) => f@ == want,
            (Err(e), Err(want)) => e == want,
            _ => false,
        },
        final(r)@ == old(r)@.skip(filter_reading(old(r)@).1 as int),
{
    let ghost all = r@;
    let flen: usize = match read_u16(r) {
        Ok(v) => v as usize,
        Err(e) => {
            return Err(e);
        },
    };
    let bytes: &[u8] = match take(r, flen) {
        Ok(s) => s,
        Err(e) => {
            assert(all.skip(2).skip(all.len() - 2) =~= all.skip(all.len() as int));
            return Err(e);
        },
    };
    assert(all.skip(2).skip(flen as int) =~= all.skip(2 + flen));
    assert(bytes@ =~= all.subrange(2, 2 + flen));
    match string_from_utf8(slice_to_vec(bytes)) {
        Some(filter) => {
            proof {
                encode_utf8_decode_utf8(filter@);
            }
            Ok(filter)
        },
        None => Err(ProtoError::FilterNotUtf8),
    }
}

/// How many more bytes an opening message needs before it can be judged.
fn opening_wanted(got: &[u8], o: Opening, at: usize) -> (n: usize)
    requires
        6 <= at <= 14,
    ensures
        n == opening_wants(got@, o, at as nat),
{
    let len: usize = got.len();
    if len < 4 {
        return 4 - len;
    }
    let magic: &[u8] = slice_subrange(got, 0, 4);
    assert(magic@ =~= got@.take(4));
    if !is_magic(magic, o) {
        return 0;
    }
    if len < 6 {
        return 6 - len;
    }
    if got[4] != VERSION {
        return 0;
    }
    if len < at + 2 {
        return at + 2 - len;
    }
    proof {
        lemma_pow256_values();
    }
    let flen: usize = get_le(slice_subrange(got, at, at + 2)) as usize;
    let end: usize = at + 2 + flen;
    if len < end {
        end - len
    } else {
        0
    }
}

/// Appends a preamble.
fn put_preamble(w: &mut Vec<u8>, o: Opening)
    ensures
        final(w)@ == old(w)@ + preamble(o),
{
    let m: [u8; 4] = match o {
        Opening::Agent => MAGIC,
        Opening::Client => MAGIC_CLIENT,
    };
    w.push(m[0]);
    w.push(m[1]);
    w.push(m[2]);
    w.push(m[3]);
    w.push(VERSION);
    w.push(0);
    assert(w@ =~= old(w)@ + preamble(o));
}

/// Appends a filter, unless its length does not fit.
fn put_filter(w: &mut Vec<u8>, filter: &str) -> (res: Result<(), ProtoError>)
    ensures
        filter_fits(filter@) ==> res is Ok && final(w)@ == old(w)@ + filter_encoding(filter@),
        !filter_fits(filter@) ==> res == Err::<(), ProtoError>(ProtoError::FilterTooLong)
            && final(w)@ == old(w)@,
{
    let bytes: &[u8] = filter.as_bytes();
    if bytes.len() > 0xffff {
        return Err(ProtoError::FilterTooLong);
    }
    put_u16(w, bytes.len() as u16);
    w.extend_from_slice(bytes);
    assert(w@ =~= old(w)@ + filter_encoding(filter@));
    Ok(())
}

/// The agent's opening message, sent once.
#[derive(Debug, Clone)]
pub struct Hello {
    pub link_type: i32,
    pub snaplen: u32,
    pub filter: String,
}

impl View for Hello {
    type V = HelloView;

    open spec fn view(&self) -> HelloView {
        HelloView { link_type: self.link_type, snaplen: self.snaplen, filter: self.filter@ }
    }
}

impl Hello {
    /// Appends the message. Where the filter is too long for its length field,
    /// the bytes before that field are appended all the same.
    pub fn write_to(&self, w: &mut Vec<u8>) -> (res: Result<(), ProtoError>)
        ensures
            filter_fits(self.filter@) ==> res is Ok && final(w)@ == old(w)@ + self@.encoding(),
            !filter_fits(self.filter@) ==> res == Err::<(), ProtoError>(ProtoError::FilterTooLong)
                && final(w)@ == old(w)@ + self@.head(),
    {
        put_preamble(w, Opening::Agent);
        put_u32(w, bits_of_i32(self.link_type));
        put_u32(w, self.snaplen);
        assert(w@ =~= old(w)@ + self@.head());
        let res: Result<(), ProtoError> = put_filter(w, self.filter.as_str());
        assert(old(w)@ + self@.head() + filter_encoding(self.filter@) =~= old(w)@
            + self@.encoding());
        res
    }

    /// Reads the message off the front of `r`.
    pub fn read_from(r: &mut &[u8]) -> (res: Result<Hello, ProtoError>)
        ensures
            match (res, hello_reading(old(r)@).0) {
                (Ok(h), Ok(want)) => h@ == want,
                (Err(e), Err(want)) => e == want,
                _ => false,
            },
            final(r)@ == old(r)@.skip(hello_reading(old(r)@).1 as int),
    {
        let ghost all = r@;
        match read_preamble(r, Opening::Agent) {
            Ok(_) => {},
            Err(e) => {
                return Err(e);
            },
        }
        let link_type: i32 = match read_i32(r) {
            Ok(v) => v,
            Err(e) => {
                assert(all.skip(6).skip(all.len() - 6) =~= all.skip(all.len() as int));
                return Err(e);
            },
        };
        assert(all.skip(6).skip(4) =~= all.skip(10));
        assert(all.skip(6).take(4) =~= all.subrange(6, 10));
        let snaplen: u32 = match read_u32(r) {
            Ok(v) => v,
            Err(e) => {
                assert(all.skip(10).skip(all.len() - 10) =~= all.skip(all.len() as int));
                return Err(e);
            },
        };
        assert(all.skip(10).skip(4) =~= all.skip(14));
        assert(all.skip(10).take(4) =~= all.subrange(10, 14));
        let ghost used = filter_reading(all.skip(14)).1;
        assert(all.skip(14).skip(used as int) =~= all.skip((14 + used) as int));
        match read_filter(r) {
            Ok(filter) => Ok(Hello { link_type, snaplen, filter }),
            Err(e) => Err(e),
        }
    }

    /// How many more bytes to fetch before `read_from` can judge the message
    /// that starts with `got`; 0 once it can. Fetching just these never runs
    /// past the message's end.
    pub fn wanted(got: &[u8]) -> (n: usize)
        ensures
            n == hello_wants(got@),
    {
        opening_wanted(got, Opening::Agent, 14)
    }
}

/// The dialing side's opening message: the filter that it wants captured.
/// Optional: an agent that gets none in time falls back to its own filter.
#[derive(Debug, Clone)]
pub struct ClientHello {
    pub filter: String,
}

impl View for ClientHello {
    type V = ClientHelloView;

    open spec fn view(&self) -> ClientHelloView {
        ClientHelloView { filter: self.filter@ }
    }
}

impl ClientHello {
    /// Appends the message. Where the filter is too long for its length field,
    /// the bytes before that field are appended all the same.
    pub fn write_to(&self, w: &mut Vec<u8>) -> (res: Result<(), ProtoError>)
        ensures
            filter_fits(self.filter@) ==> res is Ok && final(w)@ == old(w)@ + self@.encoding(),
            !filter_fits(self.filter@) ==> res == Err::<(), ProtoError>(ProtoError::FilterTooLong)
                && final(w)@ == old(w)@ + preamble(Opening::Client),
    {
        put_preamble(w, Opening::Client);
        let res: Result<(), ProtoError> = put_filter(w, self.filter.as_str());
        assert(old(w)@ + preamble(Opening::Client) + filter_encoding(self.filter@) =~= old(w)@
            + self@.encoding());
        res
    }

    /// Reads the message off the front of `r`.
    pub fn read_from(r: &mut &[u8]) -> (res: Result<ClientHello, ProtoError>)
        ensures
            match (res, client_hello_reading(old(r)@).0) {
                (Ok(h), Ok(want)) => h@ == want,
                (Err(e), Err(want)) => e == want,
                _ => false,
            },
            final(r)@ == old(r)@.skip(client_hello_reading(old(r)@).1 as int),
    {
        let ghost all = r@;
        match read_preamble(r, Opening::Client) {
            Ok(_) => {},
            Err(e) => {
                return Err(e);
            },
        }
        let ghost used = filter_reading(all.skip(6)).1;
        assert(all.skip(6).skip(used as int) =~= all.skip((6 + used) as int));
        match read_filter(r) {
            Ok(filter) => Ok(ClientHello { filter }),
            Err(e) => Err(e),
        }
    }

    /// How many more bytes to fetch before `read_from` can judge the message
    /// that starts with `got`; 0 once it can. Fetching just these never runs
    /// past the message's end.
    pub fn wanted(got: &[u8]) -> (n: usize)
        ensures
            n == client_hello_wants(got@),
    {
        opening_wanted(got, Opening::Client, 6)
    }
}

/// What precedes a frame's data.
#[derive(Debug, Clone, Copy)]
pub struct FrameHeader {
    pub ts_micros: u64,
    pub caplen: u32,
    pub origlen: u32,
}

/// Reads a frame header off the front of `s`.
pub open spec fn frame_header_reading(s: Seq<u8>) -> Reading<FrameHeader> {
    if s.len() < 16 {
        (Err(ProtoError::UnexpectedEof), s.len())
    } else {
        (
            Ok(
                FrameHeader {
                    ts_micros: le_value(s.take(8)) as u64,
                    caplen: le_value(s.subrange(8, 12)) as u32,
                    origlen: le_value(s.subrange(12, 16)) as u32,
                },
            ),
            16,
        )
    }
}

impl FrameHeader {
    /// The header's bytes.
    pub open spec fn encoding(self) -> Seq<u8> {
        le_bytes(self.ts_micros as nat, 8) + le_bytes(self.caplen as nat, 4) + le_bytes(
            self.origlen as nat,
            4,
        )
    }

    /// Appends the header.
    pub fn write_to(&self, w: &mut Vec<u8>) -> (res: Result<(), ProtoError>)
        ensures
            res is Ok,
            final(w)@ == old(w)@ + self.encoding(),
    {
        put_u64(w, self.ts_micros);
        put_u32(w, self.caplen);
        put_u32(w, self.origlen);
        assert(w@ =~= old(w)@ + self.encoding());
        Ok(())
    }

    /// Reads the header off the front of `r`.
    pub fn read_from(r: &mut &[u8]) -> (res: Result<FrameHeader, ProtoError>)
        ensures
            res == frame_header_reading(old(r)@).0,
            final(r)@ == old(r)@.skip(frame_header_reading(old(r)@).1 as int),
    {
        let ghost all = r@;
        let ts_micros: u64 = match read_u64(r) {
            Ok(v) => v,
            Err(e) => {
                return Err(e);
            },
        };
        let caplen: u32 = match read_u32(r) {
            Ok(v) => v,
            Err(e) => {
                assert(all.skip(8).skip(all.len() - 8) =~= all.skip(all.len() as int));
                return Err(e);
            },
        };
        assert(all.skip(8).skip(4) =~= all.skip(12));
        assert(all.skip(8).take(4) =~= all.subrange(8, 12));
        let origlen: u32 = match read_u32(r) {
            Ok(v) => v,
            Err(e) => {
                assert(all.skip(12).skip(all.len() - 12) =~= all.skip(all.len() as int));
                return Err(e);
            },
        };
        assert(all.skip(12).skip(4) =~= all.skip(16));
        assert(all.skip(12).take(4) =~= all.subrange(12, 16));
        Ok(FrameHeader { ts_micros, caplen, origlen })
    }
}

} // verus!
