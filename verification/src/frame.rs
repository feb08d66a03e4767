//! The frame codec: the six-byte header {encoding, kind, flags} and its
//! three wire forms.

use vstd::prelude::*;
use vstd::slice::{slice_subrange, slice_to_vec};
use crate::crc::{crc16_bytes, crc32_bytes, get_crc16, get_crc32, le32, le32_bytes};
use crate::escape::{
    escape_seq, escape_u8_array, lemma_escape_seq_concat, lemma_escape_seq_len,
    lemma_escape_seq_single, XON, ZDLE, ZPAD,
};
use crate::hexcode::{
    hex_decodable, hex_decode, hex_decoded, hex_encode, hex_encoded, lemma_hex_is_plain,
    lemma_hex_round_trip,
};
use crate::port::{
    lemma_scan_octets_escaped, lemma_scan_octets_not_bad, lemma_scan_octets_stable,
    lemma_scan_octets_step, lemma_took_chain, lemma_took_rest, read_byte, read_byte_unescaped,
    reads, scan_after, scan_octets, scan_unescaped, scan_zpad, settled, starved_after, Port,
    Scan,
};
use crate::tags::{lemma_encoding_tag, lemma_frame_tag, Encoding, Frame};
use crate::InvalidData;

verus! {

/// Carriage return, the first byte behind a hex header.
pub const CR: u8 = 0x0d;

/// Line feed, the second byte behind a hex header.
pub const LF: u8 = 0x0a;

/// How many bytes the header scratch holds: enough for an escaped header.
pub const HEADER_SIZE: usize = 32;

/// Header scratch: a vector of at most `HEADER_SIZE` bytes that needs no
/// heap.
pub type HeaderBuffer = tinyvec::ArrayVec<[u8; 32]>;

/// The bytes that a header scratch, a `tinyvec::ArrayVec`, holds, oldest
/// first.
pub uninterp spec fn hd_contents(buf: tinyvec::ArrayVec<[u8; 32]>) -> Seq<u8>;

/// Calls `tinyvec::ArrayVec::new`, which makes an empty vector.
#[verifier::external_body]
pub(crate) fn hd_new() -> (buf: tinyvec::ArrayVec<[u8; 32]>)
    ensures
        hd_contents(buf) == Seq::<u8>::empty(),
{
    tinyvec::ArrayVec::new()
}

/// Calls `tinyvec::ArrayVec::push`, which appends one byte and panics on a
/// full vector: the `requires` keeps full vectors out.
#[verifier::external_body]
pub(crate) fn hd_push(buf: &mut tinyvec::ArrayVec<[u8; 32]>, b: u8)
    requires
        hd_contents(*old(buf)).len() < HEADER_SIZE,
    ensures
        hd_contents(*final(buf)) == hd_contents(*old(buf)).push(b),
{
    buf.push(b)
}

/// Calls `tinyvec::ArrayVec::extend_from_slice`, which appends the bytes of
/// a slice and panics where they pass the capacity: the `requires` keeps
/// such slices out.
#[verifier::external_body]
pub(crate) fn hd_extend_from_slice(buf: &mut tinyvec::ArrayVec<[u8; 32]>, bytes: &[u8])
    requires
        hd_contents(*old(buf)).len() + bytes@.len() <= HEADER_SIZE,
    ensures
        hd_contents(*final(buf)) == hd_contents(*old(buf)) + bytes@,
{
    buf.extend_from_slice(bytes)
}

/// Calls `tinyvec::ArrayVec::truncate`, which keeps the first `len` bytes
/// and leaves a vector that is no longer than that as it is.
#[verifier::external_body]
pub(crate) fn hd_truncate(buf: &mut tinyvec::ArrayVec<[u8; 32]>, len: usize)
    ensures
        hd_contents(*final(buf)) == if len < hd_contents(*old(buf)).len() {
            hd_contents(*old(buf)).take(len as int)
        } else {
            hd_contents(*old(buf))
        },
{
    buf.truncate(len)
}

/// Calls `tinyvec::ArrayVec::as_slice`, the bytes held as a slice.
#[verifier::external_body]
pub(crate) fn hd_as_slice(buf: &tinyvec::ArrayVec<[u8; 32]>) -> (s: &[u8])
    ensures
        s@ == hd_contents(*buf),
{
    buf.as_slice()
}

/// The result of a read into a header scratch, with the bytes as a
/// sequence.
pub open spec fn scratch_read(r: Result<tinyvec::ArrayVec<[u8; 32]>, InvalidData>) -> Result<
    Seq<u8>,
    InvalidData,
> {
    match r {
        Ok(buf) => Ok(hd_contents(buf)),
        Err(e) => Err(e),
    }
}

/// Reads `n` octets into a header scratch, undoing their escapes.
fn read_scratch(port: &mut Port, n: usize) -> (r: Result<HeaderBuffer, InvalidData>)
    requires
        n <= HEADER_SIZE,
    ensures
        reads(
            *old(port),
            *final(port),
            scan_octets(old(port).pending(), n as nat),
            scratch_read(r),
        ),
{
    let mut out = hd_new();
    let ghost whole = scan_octets(old(port).pending(), n as nat);
    let ghost mut used: nat = 0;
    proof {
        let p = old(port).pending();
        assert(p.take(0) == Seq::<u8>::empty());
        assert(p.skip(0) == p);
        assert(old(port).consumed() + Seq::<u8>::empty() == old(port).consumed());
        match whole {
            Scan::Done { value, used } => {
                assert(Seq::<u8>::empty() + value == value);
            },
            _ => {},
        }
    }
    let mut i: usize = 0;
    while i < n
        invariant
            i <= n <= HEADER_SIZE,
            hd_contents(out).len() == i,
            port.took(*old(port), used),
            port.starved() == starved_after(*old(port), used),
            i > 0 ==> used > 0,
            whole == scan_octets(old(port).pending(), n as nat),
            whole == scan_after(
                hd_contents(out),
                used,
                scan_octets(port.pending(), (n - i) as nat),
            ),
        decreases n - i,
    {
        let ghost mid = *port;
        proof {
            lemma_scan_octets_step(hd_contents(out), used, port.pending(), (n - i) as nat);
        }
        match read_byte_unescaped(port) {
            Ok(b) => {
                proof {
                    let more = scan_unescaped(mid.pending())->Done_used;
                    lemma_took_chain(*old(port), mid, *port, used, more);
                    used = used + more;
                }
                hd_push(&mut out, b);
            },
            Err(e) => {
                proof {
                    lemma_took_rest(*old(port), mid, *port, used);
                }
                return Err(e);
            },
        }
        i = i + 1;
    }
    proof {
        assert(hd_contents(out) + Seq::<u8>::empty() == hd_contents(out));
    }
    Ok(out)
}

/// Puts the wire form in place of the octets that a header scratch holds
/// from `from` on.
fn escape_scratch(out: &mut HeaderBuffer, from: usize)
    requires
        from <= hd_contents(*old(out)).len(),
        from + escape_seq(hd_contents(*old(out)).skip(from as int)).len() <= HEADER_SIZE,
    ensures
        hd_contents(*final(out)) == hd_contents(*old(out)).take(from as int) + escape_seq(
            hd_contents(*old(out)).skip(from as int),
        ),
{
    let mut escaped: Vec<u8> = Vec::new();
    {
        let all = hd_as_slice(out);
        let plain = slice_subrange(all, from, all.len());
        assert(plain@ =~= hd_contents(*out).skip(from as int));
        escape_u8_array(plain, &mut escaped);
    }
    hd_truncate(out, from);
    assert(hd_contents(*out) =~= hd_contents(*old(out)).take(from as int));
    hd_extend_from_slice(out, escaped.as_slice());
}

/// How many bytes the frame check of an encoding has.
pub open spec fn crc_len(encoding: Encoding) -> nat {
    if encoding == Encoding::ZBIN32 {
        4
    } else {
        2
    }
}

/// The frame check of `data` as an encoding sends it: 32 bits, low byte
/// first, for ZBIN32; 16 bits, high byte first, for the two others.
pub open spec fn crc_bytes(encoding: Encoding, data: Seq<u8>) -> Seq<u8> {
    if encoding == Encoding::ZBIN32 {
        crc32_bytes(data)
    } else {
        crc16_bytes(data)
    }
}

/// The number that four flag bytes hold, low byte first.
pub open spec fn le32_value(s: Seq<u8>) -> int {
    s[0] + s[1] * 0x100 + s[2] * 0x1_0000 + s[3] * 0x100_0000
}

/// The four flag bytes of a number hold that number.
pub proof fn lemma_le32_value(x: u32)
    ensures
        le32(x).len() == 4,
        le32_value(le32(x)) == x,
{
}

/// A frame header.
#[derive(Clone, Copy, Debug, PartialEq)]
pub struct Header {
    pub encoding: Encoding,
    pub kind: Frame,
    pub flags: [u8; 4],
}

/// The header of the given encoding and kind whose flags are the first
/// four bytes of `flags`.
pub open spec fn header_with(encoding: Encoding, kind: Frame, flags: Seq<u8>) -> Header {
    Header { encoding, kind, flags: [flags[0], flags[1], flags[2], flags[3]] }
}

/// How many octets follow the encoding byte of a header: kind, flags and
/// frame check, each as two hex digits for ZHEX.
pub open spec fn body_len(encoding: Encoding) -> nat {
    match encoding {
        Encoding::ZBIN => 7,
        Encoding::ZBIN32 => 9,
        Encoding::ZHEX => 14,
    }
}

impl Header {
    /// Kind and flags: the five bytes that the frame check covers.
    pub open spec fn payload(self) -> Seq<u8> {
        seq![self.kind.byte()] + self.flags@
    }

    /// What follows a hex header: CR, LF and, but for ZACK and ZFIN, XON.
    pub open spec fn trailer(self) -> Seq<u8> {
        if self.encoding != Encoding::ZHEX {
            Seq::empty()
        } else if self.kind == Frame::ZACK || self.kind == Frame::ZFIN {
            seq![CR, LF]
        } else {
            seq![CR, LF, XON]
        }
    }

    /// The pads, ZDLE and the encoding byte.
    pub open spec fn lead(self) -> Seq<u8> {
        if self.encoding == Encoding::ZHEX {
            seq![ZPAD, ZPAD, ZDLE, self.encoding.byte()]
        } else {
            seq![ZPAD, ZDLE, self.encoding.byte()]
        }
    }

    /// The octets behind the encoding byte where the frame check is `check`:
    /// payload and check, as hex digits for ZHEX.
    pub open spec fn body(self, check: Seq<u8>) -> Seq<u8> {
        if self.encoding == Encoding::ZHEX {
            hex_encoded(self.payload() + check)
        } else {
            self.payload() + check
        }
    }

    /// The frame on the wire where the frame check is `check`.
    pub open spec fn framed(self, check: Seq<u8>) -> Seq<u8> {
        self.lead() + escape_seq(self.body(check)) + self.trailer()
    }

    /// The frame on the wire.
    pub open spec fn wire(self) -> Seq<u8> {
        self.framed(crc_bytes(self.encoding, self.payload()))
    }

    /// The count that the flags hold: a file offset or a number of bytes.
    pub open spec fn count_value(self) -> int {
        le32_value(self.flags@)
    }

    /// The header that kind, flags and frame check make, if they make one,
    /// where `check` is the frame check that kind and flags ought to
    /// have: the frame check must be `check` and the kind must be known.
    pub open spec fn checked(encoding: Encoding, plain: Seq<u8>, check: Seq<u8>) -> Option<Header> {
        if plain.len() < 5 || plain.skip(5) != check {
            None
        } else {
            match Frame::of_byte(plain[0]) {
                Some(kind) => Some(
                    Header { encoding, kind, flags: [plain[1], plain[2], plain[3], plain[4]] },
                ),
                None => None,
            }
        }
    }

    /// The header that the octets behind the encoding byte make, if they
    /// make one: hex digits are decoded, the frame check must match and the
    /// kind must be known.
    pub open spec fn parsed(encoding: Encoding, body: Seq<u8>) -> Option<Header> {
        let plain = if encoding == Encoding::ZHEX {
            hex_decoded(body)
        } else {
            body
        };
        if encoding == Encoding::ZHEX && !hex_decodable(body) {
            None
        } else if plain.len() != 5 + crc_len(encoding) {
            None
        } else {
            Header::checked(encoding, plain, crc_bytes(encoding, plain.take(5)))
        }
    }

    /// A header of the given encoding and kind, all flags zero.
    pub fn new(encoding: Encoding, kind: Frame) -> (h: Header)
        ensures
            h == header_with(encoding, kind, seq![0u8, 0u8, 0u8, 0u8]),
            h.flags@ == seq![0u8, 0u8, 0u8, 0u8],
            h.count_value() == 0,
    {
        let h = Header { encoding, kind, flags: [0u8; 4] };
        assert(h.flags@ =~= seq![0u8, 0u8, 0u8, 0u8]);
        assert(h.flags =~= header_with(encoding, kind, seq![0u8, 0u8, 0u8, 0u8]).flags);
        h
    }

    /// A header of the given encoding and kind whose flags hold `count`.
    pub fn new_count(encoding: Encoding, kind: Frame, count: u32) -> (h: Header)
        ensures
            h == header_with(encoding, kind, le32(count)),
            h.flags@ == le32(count),
            h.count_value() == count,
    {
        Header::new(encoding, kind).with_count(count)
    }

    /// The encoding.
    pub fn encoding(&self) -> (e: Encoding)
        ensures
            e == self.encoding,
    {
        self.encoding
    }

    /// The frame type.
    pub fn kind(&self) -> (k: Frame)
        ensures
            k == self.kind,
    {
        self.kind
    }

    /// The frame type.
    pub fn frame_type(&self) -> (k: Frame)
        ensures
            k == self.kind,
    {
        self.kind
    }

    /// The count that the flags hold, low byte first.
    pub fn count(&self) -> (n: u32)
        ensures
            n == self.count_value(),
    {
        self.flags[0] as u32 + self.flags[1] as u32 * 0x100 + self.flags[2] as u32 * 0x1_0000
            + self.flags[3] as u32 * 0x100_0000
    }

    /// The count that the flags hold, low byte first.
    pub fn get_count(&self) -> (n: u32)
        ensures
            n == self.count_value(),
    {
        self.count()
    }

    /// This header with `count` in its flags, low byte first.
    pub fn with_count(&self, count: u32) -> (h: Header)
        ensures
            h == header_with(self.encoding, self.kind, le32(count)),
            h.flags@ == le32(count),
            h.count_value() == count,
    {
        let flags = le32_bytes(count);
        proof {
            let want = header_with(self.encoding, self.kind, le32(count)).flags;
            assert(want@ =~= flags@);
            assert(flags =~= want);
        }
        Header { encoding: self.encoding, kind: self.kind, flags }
    }

    /// This header with the given flags.
    pub fn with_flags(&self, flags: &[u8; 4]) -> (h: Header)
        ensures
            h == header_with(self.encoding, self.kind, flags@),
            h.flags == *flags,
    {
        assert(*flags =~= header_with(self.encoding, self.kind, flags@).flags);
        Header { encoding: self.encoding, kind: self.kind, flags: *flags }
    }

    /// How many octets a header takes before escaping, the encoding byte
    /// among them.
    pub fn unescaped_size(encoding: Encoding) -> (n: usize)
        ensures
            n == body_len(encoding) + 1,
    {
        match encoding {
            Encoding::ZBIN => 8,
            Encoding::ZBIN32 => 10,
            Encoding::ZHEX => 15,
        }
    }

    /// Appends to `out` the frame whose frame check is `check`.
    pub fn frame_with_check(&self, check: &[u8], out: &mut Vec<u8>)
        ensures
            final(out)@ == old(out)@ + self.framed(check@),
    {
        let ghost before = out@;
        out.push(ZPAD);
        if self.encoding == Encoding::ZHEX {
            out.push(ZPAD);
        }
        out.push(ZDLE);
        out.push(self.encoding.as_u8());
        assert(out@ == before + self.lead());
        let mut body: Vec<u8> = Vec::new();
        body.push(self.kind.as_u8());
        body.push(self.flags[0]);
        body.push(self.flags[1]);
        body.push(self.flags[2]);
        body.push(self.flags[3]);
        assert(body@ == self.payload());
        body.extend_from_slice(check);
        assert(body@ == self.payload() + check@);
        if self.encoding == Encoding::ZHEX {
            let hex = hex_encode(body.as_slice());
            escape_u8_array(hex.as_slice(), out);
            let ghost escaped = out@;
            assert(escaped == before + self.lead() + escape_seq(self.body(check@)));
            out.push(CR);
            out.push(LF);
            if self.kind != Frame::ZACK && self.kind != Frame::ZFIN {
                out.push(XON);
            }
            assert(out@ == escaped + self.trailer());
        } else {
            escape_u8_array(body.as_slice(), out);
            assert(out@ == before + self.lead() + escape_seq(self.body(check@)));
            assert(out@ == out@ + self.trailer());
        }
        assert(out@ == before + (self.lead() + escape_seq(self.body(check@)) + self.trailer()));
    }

    /// A scratch that holds the opening sequence, the encoding byte, kind,
    /// flags and frame check, the last three as hex digits for ZHEX; and
    /// how many bytes stand in front of the kind.
    fn plain_scratch(&self) -> (r: (HeaderBuffer, usize))
        ensures
            hd_contents(r.0) == self.lead() + self.body(
                crc_bytes(self.encoding, self.payload()),
            ),
            r.1 == self.lead().len(),
    {
        let ghost check = crc_bytes(self.encoding, self.payload());
        let mut out = hd_new();
        hd_push(&mut out, ZPAD);
        if self.encoding == Encoding::ZHEX {
            hd_push(&mut out, ZPAD);
        }
        hd_push(&mut out, ZDLE);
        hd_push(&mut out, self.encoding.as_u8());
        assert(hd_contents(out) =~= self.lead());
        let at = hd_as_slice(&out).len();
        hd_push(&mut out, self.kind.as_u8());
        hd_extend_from_slice(&mut out, self.flags.as_slice());
        assert(hd_contents(out) =~= self.lead() + self.payload());
        let mut crc: Vec<u8> = Vec::new();
        {
            let all = hd_as_slice(&out);
            let data = slice_subrange(all, at, all.len());
            assert(data@ =~= self.payload());
            make_crc(data, &mut crc, self.encoding);
        }
        hd_extend_from_slice(&mut out, crc.as_slice());
        assert(hd_contents(out) =~= self.lead() + (self.payload() + check));
        if self.encoding == Encoding::ZHEX {
            let hex = {
                let all = hd_as_slice(&out);
                let plain = slice_subrange(all, at, all.len());
                assert(plain@ =~= self.payload() + check);
                hex_encode(plain)
            };
            hd_truncate(&mut out, at);
            assert(hd_contents(out) =~= self.lead());
            hd_extend_from_slice(&mut out, hex.as_slice());
        }
        (out, at)
    }

    /// Queues the frame on the port. This never fails.
    pub fn write(&self, port: &mut Port) -> (r: Result<(), InvalidData>)
        ensures
            r is Ok,
            final(port).wrote(*old(port), self.wire()),
    {
        let ghost check = crc_bytes(self.encoding, self.payload());
        let (mut out, at) = self.plain_scratch();
        proof {
            lemma_escaped_behind_lead(*self, check);
        }
        escape_scratch(&mut out, at - 1);
        if self.encoding == Encoding::ZHEX {
            hd_push(&mut out, CR);
            hd_push(&mut out, LF);
            if self.kind != Frame::ZACK && self.kind != Frame::ZFIN {
                hd_push(&mut out, XON);
            }
        }
        assert(hd_contents(out) =~= self.wire());
        port.write_all(hd_as_slice(&out));
        Ok(())
    }

    /// The header that kind, flags and frame check make, where `check` is
    /// the frame check that kind and flags ought to have.
    pub fn with_check(encoding: Encoding, plain: &[u8], check: &[u8]) -> (r: Result<
        Header,
        InvalidData,
    >)
        ensures
            match Header::checked(encoding, plain@, check@) {
                Some(h) => r == Ok::<Header, InvalidData>(h),
                None => r is Err,
            },
    {
        if plain.len() < 5 {
            return Err(InvalidData);
        }
        let field = slice_subrange(plain, 5, plain.len());
        assert(field@ == plain@.skip(5));
        if !bytes_equal(field, check) {
            return Err(InvalidData);
        }
        let kind = Frame::try_from(plain[0])?;
        let h = Header { encoding, kind, flags: [plain[1], plain[2], plain[3], plain[4]] };
        assert(h.flags == Header::checked(encoding, plain@, check@).unwrap().flags);
        Ok(h)
    }

    /// The header made by the octets behind an encoding byte.
    pub fn parse(encoding: Encoding, body: &[u8]) -> (r: Result<Header, InvalidData>)
        ensures
            match Header::parsed(encoding, body@) {
                Some(h) => r == Ok::<Header, InvalidData>(h),
                None => r is Err,
            },
    {
        let plain: Vec<u8> = if encoding == Encoding::ZHEX {
            match hex_decode(body) {
                Some(bytes) => bytes,
                None => {
                    return Err(InvalidData);
                },
            }
        } else {
            slice_to_vec(body)
        };
        let want: usize = if encoding == Encoding::ZBIN32 {
            9
        } else {
            7
        };
        if plain.len() != want {
            return Err(InvalidData);
        }
        let data = slice_subrange(plain.as_slice(), 0, 5);
        assert(data@ == plain@.take(5));
        let mut check: Vec<u8> = Vec::new();
        make_crc(data, &mut check, encoding);
        Header::with_check(encoding, plain.as_slice(), check.as_slice())
    }

    /// Reads a header whose opening sequence was read already: the encoding
    /// byte, then kind, flags and frame check.
    pub fn read(port: &mut Port) -> (r: Result<Header, InvalidData>)
        ensures
            reads(*old(port), *final(port), scan_header(old(port).pending()), r),
    {
        let e = read_byte(port)?;
        let encoding = Encoding::try_from(e)?;
        let ghost mid = *port;
        let body = match read_scratch(port, Header::unescaped_size(encoding) - 1) {
            Ok(body) => body,
            Err(e) => {
                proof {
                    lemma_scan_octets_not_bad(mid.pending(), body_len(encoding));
                    lemma_took_rest(*old(port), mid, *port, 1);
                }
                return Err(e);
            },
        };
        proof {
            let used = scan_octets(mid.pending(), body_len(encoding))->Done_used;
            lemma_took_chain(*old(port), mid, *port, 1, used);
        }
        Header::parse(encoding, hd_as_slice(&body))
    }
}

/// A header whose opening sequence was read already.
pub open spec fn scan_header(s: Seq<u8>) -> Scan<Header> {
    if s.len() == 0 {
        Scan::Short
    } else {
        match Encoding::of_byte(s[0]) {
            None => Scan::Bad { used: 1 },
            Some(encoding) => match scan_octets(s.skip(1), body_len(encoding)) {
                Scan::Done { value, used } => match Header::parsed(encoding, value) {
                    Some(h) => Scan::Done { value: h, used: used + 1 },
                    None => Scan::Bad { used: used + 1 },
                },
                _ => Scan::Short,
            },
        }
    }
}

/// Reading a header takes at least one byte, and no more than there are.
pub proof fn lemma_scan_header_used(s: Seq<u8>)
    ensures
        match scan_header(s) {
            Scan::Done { value, used } => 1 <= used <= s.len(),
            Scan::Bad { used } => 1 <= used <= s.len(),
            Scan::Short => true,
        },
{
    if s.len() > 0 {
        match Encoding::of_byte(s[0]) {
            Some(encoding) => {
                lemma_scan_octets_not_bad(s.skip(1), body_len(encoding));
            },
            None => {},
        }
    }
}

/// What a header was read as does not change when more bytes come in
/// behind it.
pub proof fn lemma_scan_header_stable(s: Seq<u8>, more: Seq<u8>)
    requires
        settled(scan_header(s)),
    ensures
        scan_header(s + more) == scan_header(s),
{
    let all = s + more;
    assert(all[0] == s[0]);
    match Encoding::of_byte(s[0]) {
        Some(encoding) => {
            assert(all.skip(1) =~= s.skip(1) + more);
            lemma_scan_octets_not_bad(s.skip(1), body_len(encoding));
            lemma_scan_octets_stable(s.skip(1), body_len(encoding), more);
        },
        None => {},
    }
}

/// The octets behind the encoding byte of a frame make its header again
/// where the frame check field holds the frame check of the payload, and
/// make none where it holds anything else of that length.
pub proof fn lemma_parsed_body(h: Header, check: Seq<u8>)
    requires
        check.len() == crc_len(h.encoding),
    ensures
        h.body(check).len() == body_len(h.encoding),
        check == crc_bytes(h.encoding, h.payload()) ==> Header::parsed(h.encoding, h.body(check))
            == Some(h),
        check != crc_bytes(h.encoding, h.payload()) ==> Header::parsed(h.encoding, h.body(check))
            is None,
{
    let plain = h.payload() + check;
    let body = h.body(check);
    assert(h.payload().len() == 5);
    if h.encoding == Encoding::ZHEX {
        lemma_hex_round_trip(plain);
        assert(body.len() == 14);
        assert(hex_decoded(body) == plain);
    } else {
        assert(body == plain);
    }
    assert(plain.take(5) =~= h.payload());
    assert(plain.skip(5) =~= check);
    assert(plain[0] == h.kind.byte());
    assert(plain[1] == h.flags@[0]);
    assert(plain[2] == h.flags@[1]);
    assert(plain[3] == h.flags@[2]);
    assert(plain[4] == h.flags@[3]);
    lemma_frame_tag(h.kind);
    if check == crc_bytes(h.encoding, h.payload()) {
        let decoded = if h.encoding == Encoding::ZHEX {
            hex_decoded(body)
        } else {
            body
        };
        assert(decoded == plain);
        assert(Header::parsed(h.encoding, body) is Some);
        let back = Header::parsed(h.encoding, body).unwrap();
        assert(back.flags@ =~= h.flags@);
        assert(back.flags =~= h.flags);
        assert(back.encoding == h.encoding);
        assert(back.kind == h.kind);
        assert(back == h);
    }
}

/// A header with its body, escaped from the encoding byte on, is the
/// header with the escaped body, for the encoding byte has no escape; and
/// it fits the header scratch with what follows a hex header.
pub proof fn lemma_escaped_behind_lead(h: Header, check: Seq<u8>)
    requires
        check.len() == crc_len(h.encoding),
    ensures
        ({
            let plain = h.lead() + h.body(check);
            let from = h.lead().len() - 1;
            &&& plain.take(from) + escape_seq(plain.skip(from)) == h.lead() + escape_seq(
                h.body(check),
            )
            &&& from + escape_seq(plain.skip(from)).len() + 3 <= HEADER_SIZE
        }),
{
    let plain = h.lead() + h.body(check);
    let from = h.lead().len() - 1;
    let tag = seq![h.encoding.byte()];
    let body = h.body(check);
    assert(plain.skip(from) =~= tag + body);
    assert(plain.take(from) + tag =~= h.lead());
    lemma_escape_seq_concat(tag, body);
    lemma_escape_seq_single(h.encoding.byte());
    assert(escape_seq(tag) == tag);
    lemma_escape_seq_len(body);
    if h.encoding == Encoding::ZHEX {
        lemma_hex_is_plain(h.payload() + check);
        assert(body.len() == 14);
    } else {
        assert(body.len() == 5 + check.len());
    }
    assert(plain.take(from) + (tag + escape_seq(body)) =~= h.lead() + escape_seq(body));
}

/// Behind the opening sequence of a frame stand the encoding byte, the
/// escaped octets of the body, and what follows the header.
pub proof fn lemma_behind_lead(h: Header, check: Seq<u8>, rest: Seq<u8>)
    ensures
        scan_zpad(h.framed(check) + rest) == (Scan::Done {
            value: (),
            used: (h.lead().len() - 1) as nat,
        }),
        (h.framed(check) + rest).skip(h.lead().len() - 1) == seq![h.encoding.byte()] + (
        escape_seq(h.body(check)) + (h.trailer() + rest)),
{
    let all = h.framed(check) + rest;
    let inner = escape_seq(h.body(check)) + (h.trailer() + rest);
    assert(all =~= h.lead() + inner);
    if h.encoding == Encoding::ZHEX {
        assert(h.lead() =~= seq![ZPAD, ZPAD, ZDLE] + seq![h.encoding.byte()]);
        assert(all =~= seq![ZPAD, ZPAD, ZDLE] + (seq![h.encoding.byte()] + inner));
        assert(all.skip(3) =~= seq![h.encoding.byte()] + inner);
    } else {
        assert(h.lead() =~= seq![ZPAD, ZDLE] + seq![h.encoding.byte()]);
        assert(all =~= seq![ZPAD, ZDLE] + (seq![h.encoding.byte()] + inner));
        assert(all.skip(2) =~= seq![h.encoding.byte()] + inner);
    }
}

/// What reading makes of the encoding byte and the escaped octets of a
/// body: the header that the body makes, or none.
pub proof fn lemma_scan_body(encoding: Encoding, body: Seq<u8>, behind: Seq<u8>)
    requires
        body.len() == body_len(encoding),
    ensures
        scan_header(seq![encoding.byte()] + (escape_seq(body) + behind)) == match Header::parsed(
            encoding,
            body,
        ) {
            Some(h) => Scan::Done { value: h, used: 1 + escape_seq(body).len() },
            None => Scan::Bad { used: 1 + escape_seq(body).len() },
        },
{
    let s = seq![encoding.byte()] + (escape_seq(body) + behind);
    assert(s[0] == encoding.byte());
    assert(s.skip(1) =~= escape_seq(body) + behind);
    lemma_encoding_tag(encoding);
    lemma_scan_octets_escaped(body, behind);
}

/// What reading makes of a frame whose frame check field holds `check`:
/// the opening sequence is accepted, and the header behind it is read as
/// it was written where `check` is the frame check of its payload, and
/// refused where it is not.
pub proof fn lemma_scan_framed(h: Header, check: Seq<u8>, rest: Seq<u8>)
    requires
        check.len() == crc_len(h.encoding),
    ensures
        scan_zpad(h.framed(check) + rest) == (Scan::Done {
            value: (),
            used: (h.lead().len() - 1) as nat,
        }),
        check == crc_bytes(h.encoding, h.payload()) ==> scan_header(
            (h.framed(check) + rest).skip(h.lead().len() - 1),
        ) == (Scan::Done { value: h, used: 1 + escape_seq(h.body(check)).len() }),
        check != crc_bytes(h.encoding, h.payload()) ==> scan_header(
            (h.framed(check) + rest).skip(h.lead().len() - 1),
        ) == (Scan::<Header>::Bad { used: 1 + escape_seq(h.body(check)).len() }),
{
    lemma_behind_lead(h, check, rest);
    lemma_parsed_body(h, check);
    lemma_scan_body(h.encoding, h.body(check), h.trailer() + rest);
}

/// Codec round trip: what a header was written as is read back as that
/// header, whatever follows it on the channel. The opening sequence is
/// read first, the header behind it.
pub proof fn lemma_header_round_trip(h: Header, rest: Seq<u8>)
    ensures
        scan_zpad(h.wire() + rest) == (Scan::Done {
            value: (),
            used: (h.lead().len() - 1) as nat,
        }),
        scan_header((h.wire() + rest).skip(h.lead().len() - 1)) == (Scan::Done {
            value: h,
            used: 1 + escape_seq(h.body(crc_bytes(h.encoding, h.payload()))).len(),
        }),
{
    let check = crc_bytes(h.encoding, h.payload());
    lemma_crc_bytes_len(h.encoding, h.payload());
    lemma_scan_framed(h, check, rest);
}

/// Frame check rejection: a frame whose frame check field holds anything
/// of the right length but the frame check of its payload is refused. That
/// covers every field with one bit flipped.
pub proof fn lemma_header_crc_rejection(h: Header, check: Seq<u8>, rest: Seq<u8>)
    requires
        check.len() == crc_len(h.encoding),
        check != crc_bytes(h.encoding, h.payload()),
    ensures
        scan_header((h.framed(check) + rest).skip(h.lead().len() - 1)) is Bad,
{
    lemma_scan_framed(h, check, rest);
}

/// A frame check has the length that its encoding gives it.
pub proof fn lemma_crc_bytes_len(encoding: Encoding, data: Seq<u8>)
    ensures
        crc_bytes(encoding, data).len() == crc_len(encoding),
{
}

/// Appends the frame check of `data` to `out` and returns its length.
pub fn make_crc(data: &[u8], out: &mut Vec<u8>, encoding: Encoding) -> (n: usize)
    ensures
        final(out)@ == old(out)@ + crc_bytes(encoding, data@),
        n == crc_len(encoding),
        n == crc_bytes(encoding, data@).len(),
{
    match encoding {
        Encoding::ZBIN32 => {
            let crc = get_crc32(data, None);
            out.extend_from_slice(crc.as_slice());
            4
        },
        _ => {
            let crc = get_crc16(data, None);
            out.extend_from_slice(crc.as_slice());
            2
        },
    }
}

/// Whether two byte strings are the same.
pub fn bytes_equal(a: &[u8], b: &[u8]) -> (same: bool)
    ensures
        same == (a@ == b@),
{
    if a.len() != b.len() {
        return false;
    }
    let mut i: usize = 0;
    while i < a.len()
        invariant
            i <= a.len(),
            a@.len() == b@.len(),
            a@.take(i as int) == b@.take(i as int),
        decreases a.len() - i,
    {
        if a[i] != b[i] {
            return false;
        }
        assert(a@.take(i + 1) == a@.take(i as int).push(a@[i as int]));
        assert(b@.take(i + 1) == b@.take(i as int).push(b@[i as int]));
        i = i + 1;
    }
    assert(a@.take(a.len() as int) == a@);
    assert(b@.take(b.len() as int) == b@);
    true
}

/// Accepts `crc` exactly where it is the frame check of `data`.
pub fn check_crc(data: &[u8], crc: &[u8], encoding: Encoding) -> (r: Result<(), InvalidData>)
    ensures
        r is Ok <==> crc@ == crc_bytes(encoding, data@),
{
    let mut own: Vec<u8> = Vec::new();
    make_crc(data, &mut own, encoding);
    if bytes_equal(crc, own.as_slice()) {
        Ok(())
    } else {
        Err(InvalidData)
    }
}

/// Appends the frame of `header` to `out`.
pub fn new_frame(header: &Header, out: &mut Vec<u8>)
    ensures
        final(out)@ == old(out)@ + header.wire(),
{
    let mut data: Vec<u8> = Vec::new();
    data.push(header.kind.as_u8());
    data.push(header.flags[0]);
    data.push(header.flags[1]);
    data.push(header.flags[2]);
    data.push(header.flags[3]);
    assert(data@ == header.payload());
    let mut check: Vec<u8> = Vec::new();
    make_crc(data.as_slice(), &mut check, header.encoding);
    header.frame_with_check(check.as_slice(), out);
}

} // verus!
