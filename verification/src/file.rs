//! The two frames that open a session: ZRINIT, in which the receiver tells
//! what it can do, and ZFILE, in which the sender names the file.

use vstd::prelude::*;
use vstd::string::StringSliceAdditionalSpecFns;
use crate::crc::le32;
use crate::frame::{header_with, Header};
use crate::port::{Port, Scan};
use crate::subpacket::{
    read_subpacket, rx_as_slice, rx_new, scan_subpacket, subpacket_wire, write_subpacket,
    RX_CAPACITY, SUBPACKET_SIZE,
};
use crate::tags::{Encoding, Frame, Packet};
use crate::InvalidData;

verus! {

/// Can send and receive in full duplex.
pub const CANFDX: u8 = 0x01;

/// Can receive data in parallel with disk I/O.
pub const CANOVIO: u8 = 0x02;

/// Can send a break signal.
pub const CANBRK: u8 = 0x04;

/// Can decrypt.
pub const CANCRY: u8 = 0x08;

/// Can uncompress.
pub const CANLZW: u8 = 0x10;

/// Can use the 32-bit frame check.
pub const CANFC32: u8 = 0x20;

/// Expects control characters to be escaped.
pub const ESCCTL: u8 = 0x40;

/// Expects the eighth bit to be escaped.
pub const ESC8: u8 = 0x80;

/// The capabilities that a receiver names in ZRINIT, one bit each.
#[derive(Clone, Copy, Debug, PartialEq, Eq, Structural)]
pub struct Zrinit {
    pub bits: u8,
}

impl Zrinit {
    /// The set of capabilities whose bits are set in `bits`.
    pub fn from_bits(bits: u8) -> (z: Zrinit)
        ensures
            z.bits == bits,
    {
        Zrinit { bits }
    }

    /// One bit for each capability of the set.
    pub fn bits(&self) -> (bits: u8)
        ensures
            bits == self.bits,
    {
        self.bits
    }

    /// Whether every capability of `flags` is in the set.
    pub fn contains(&self, flags: u8) -> (b: bool)
        ensures
            b == (self.bits & flags == flags),
    {
        self.bits & flags == flags
    }
}

/// How long a file name may be: the descriptor holds it and a NUL.
pub const NAME_MAX: usize = 255;

/// The file that a sender announced: its name, followed by NULs, in 256
/// bytes.
#[derive(PartialEq)]
pub struct File {
    name: [u8; 256],
}

impl File {
    /// The 256 bytes of the descriptor.
    pub closed spec fn bytes(&self) -> Seq<u8> {
        self.name@
    }

    /// The 256 bytes of the descriptor: the name, then NULs.
    pub fn name(&self) -> (name: &[u8; 256])
        ensures
            name@ == self.bytes(),
    {
        &self.name
    }

    /// The descriptor of the file that the payload of a ZFILE subpacket
    /// names; an empty name and one of more than 255 bytes are refused.
    pub fn from_payload(payload: &[u8]) -> (r: Result<File, InvalidData>)
        ensures
            match file_named(payload@) {
                Some(bytes) => r is Ok && r.unwrap().bytes() == bytes,
                None => r is Err,
            },
    {
        let found = read_null_string(payload);
        if found.len() == 0 || found.len() > NAME_MAX {
            return Err(InvalidData);
        }
        let mut name = [0u8; 256];
        let mut i: usize = 0;
        while i < found.len()
            invariant
                i <= found.len() <= NAME_MAX,
                forall|j: int| 0 <= j < i ==> name@[j] == found@[j],
                forall|j: int| i <= j < 256 ==> name@[j] == 0,
            decreases found.len() - i,
        {
            name[i] = found[i];
            i = i + 1;
        }
        assert(name@ =~= name_field(found@));
        Ok(File { name })
    }
}

/// The ZRINIT header that names the capabilities `bits` and a receive
/// buffer of `count` bytes: the count in the first two flags, low byte
/// first, the capabilities in the last.
pub open spec fn zrinit_header(encoding: Encoding, bits: u8, count: u16) -> Header {
    header_with(
        encoding,
        Frame::ZRINIT,
        seq![(count % 0x100) as u8, (count / 0x100) as u8, 0u8, bits],
    )
}

/// The payload of the subpacket behind ZFILE: the name, a NUL, the size in
/// decimal, a NUL.
pub open spec fn zfile_payload(name: Seq<u8>, size: u32) -> Seq<u8> {
    name.push(0u8) + decimal(size as nat).push(0u8)
}

/// What announces a file: a ZFILE header in ZBIN32 with all flags zero,
/// and one ZCRCW subpacket with the name and the size.
pub open spec fn zfile_wire(name: Seq<u8>, size: u32) -> Seq<u8> {
    header_with(Encoding::ZBIN32, Frame::ZFILE, seq![0u8, 0u8, 0u8, 0u8]).wire() + subpacket_wire(
        Encoding::ZBIN32,
        Packet::ZCRCW,
        zfile_payload(name, size),
    )
}

/// The ZRPOS header, in hex, that asks for the data from `count` on.
pub open spec fn zrpos_header(count: u32) -> Header {
    header_with(Encoding::ZHEX, Frame::ZRPOS, le32(count))
}

/// The ZNAK header, in hex.
pub open spec fn znak_header() -> Header {
    header_with(Encoding::ZHEX, Frame::ZNAK, seq![0u8, 0u8, 0u8, 0u8])
}

/// What reading the subpacket behind ZFILE returns and leaves behind,
/// where the read came to `scan`. A subpacket that was read is answered
/// with ZRPOS 0, and gives the file that its payload names, or an error
/// where it names none. A subpacket that was refused is answered with
/// ZNAK and gives no file. Where the bytes ran out, nothing is answered.
pub open spec fn reads_zfile(
    before: Port,
    after: Port,
    scan: Scan<(Seq<u8>, Packet)>,
    r: Result<Option<File>, InvalidData>,
) -> bool {
    match scan {
        Scan::Done { value, used } => {
            &&& after.exchanged(before, used, zrpos_header(0).wire())
            &&& !after.starved()
            &&& match file_named(value.0) {
                Some(bytes) => r matches Ok(Some(file)) && file.bytes() == bytes,
                None => r is Err,
            }
        },
        Scan::Bad { used } => {
            &&& after.exchanged(before, used, znak_header().wire())
            &&& !after.starved()
            &&& r matches Ok(None)
        },
        Scan::Short => {
            &&& after.took(before, before.pending().len())
            &&& after.starved()
            &&& r is Err
        },
    }
}

impl Header {
    /// Queues a ZRINIT header that names the capabilities `zrinit` and a
    /// receive buffer of `count` bytes. This never fails.
    pub fn write_zrinit(port: &mut Port, encoding: Encoding, zrinit: Zrinit, count: u16) -> (r:
        Result<(), InvalidData>)
        ensures
            r is Ok,
            final(port).wrote(*old(port), zrinit_header(encoding, zrinit.bits, count).wire()),
    {
        let flags = [(count % 0x100) as u8, (count / 0x100) as u8, 0u8, zrinit.bits()];
        Header::new(encoding, Frame::ZRINIT).with_flags(&flags).write(port)
    }

    /// Queues what announces the file `name` of `size` bytes: a ZFILE
    /// header and its subpacket. A name that does not fit into one
    /// subpacket of `SUBPACKET_SIZE` bytes with the size is refused, and
    /// nothing is queued.
    pub fn write_zfile(port: &mut Port, name: &str, size: u32) -> (r: Result<(), InvalidData>)
        ensures
            zfile_payload(name.spec_bytes(), size).len() <= SUBPACKET_SIZE ==> r is Ok
                && final(port).wrote(*old(port), zfile_wire(name.spec_bytes(), size)),
            zfile_payload(name.spec_bytes(), size).len() > SUBPACKET_SIZE ==> r is Err
                && *final(port) == *old(port),
    {
        let bytes = name.as_bytes();
        let digits = decimal_digits(size);
        if bytes.len() > SUBPACKET_SIZE || bytes.len() + digits.len() + 2 > SUBPACKET_SIZE {
            return Err(InvalidData);
        }
        let mut tx_buf = tx_new();
        tx_extend_from_slice(&mut tx_buf, bytes);
        tx_push(&mut tx_buf, 0u8);
        tx_extend_from_slice(&mut tx_buf, digits.as_slice());
        tx_push(&mut tx_buf, 0u8);
        assert(tx_contents(tx_buf) =~= zfile_payload(name.spec_bytes(), size));
        let ghost before = *port;
        Header::new(Encoding::ZBIN32, Frame::ZFILE).write(port)?;
        write_subpacket(port, Encoding::ZBIN32, Packet::ZCRCW, tx_as_slice(&tx_buf))?;
        assert(port.sent() =~= before.sent() + zfile_wire(name.spec_bytes(), size));
        Ok(())
    }

    /// Reads the subpacket behind this ZFILE header and answers it: ZRPOS 0
    /// for a subpacket that was read, ZNAK for one that was refused.
    pub fn read_zfile(&self, port: &mut Port) -> (r: Result<Option<File>, InvalidData>)
        ensures
            reads_zfile(
                *old(port),
                *final(port),
                scan_subpacket(old(port).pending(), self.encoding, RX_CAPACITY as nat),
                r,
            ),
    {
        let mut rx_buf = rx_new();
        match read_subpacket(port, self.encoding(), &mut rx_buf) {
            Ok(_) => {
                Header::new(Encoding::ZHEX, Frame::ZRPOS).with_count(0).write(port)?;
                let file = File::from_payload(rx_as_slice(&rx_buf))?;
                Ok(Some(file))
            },
            Err(e) => {
                if port.is_starved() {
                    return Err(e);
                }
                Header::new(Encoding::ZHEX, Frame::ZNAK).write(port)?;
                Ok(None)
            },
        }
    }
}

/// Transmit buffer: a vector of at most `SUBPACKET_SIZE` bytes that needs
/// no heap.
pub type TxBuffer = tinyvec::ArrayVec<[u8; 1024]>;

/// The bytes that a transmit buffer, a `tinyvec::ArrayVec`, holds, oldest
/// first.
pub uninterp spec fn tx_contents(buf: tinyvec::ArrayVec<[u8; 1024]>) -> Seq<u8>;

/// Calls `tinyvec::ArrayVec::new`, which makes an empty vector.
#[verifier::external_body]
pub(crate) fn tx_new() -> (buf: tinyvec::ArrayVec<[u8; 1024]>)
    ensures
        tx_contents(buf) == Seq::<u8>::empty(),
{
    tinyvec::ArrayVec::new()
}

/// Calls `tinyvec::ArrayVec::push`, which appends one byte and panics on a
/// full vector: the `requires` keeps full vectors out.
#[verifier::external_body]
pub(crate) fn tx_push(buf: &mut tinyvec::ArrayVec<[u8; 1024]>, b: u8)
    requires
        tx_contents(*old(buf)).len() < SUBPACKET_SIZE,
    ensures
        tx_contents(*final(buf)) == tx_contents(*old(buf)).push(b),
{
    buf.push(b)
}

/// Calls `tinyvec::ArrayVec::extend_from_slice`, which appends the bytes of
/// a slice and panics where they pass the capacity: the `requires` keeps
/// such slices out.
#[verifier::external_body]
pub(crate) fn tx_extend_from_slice(buf: &mut tinyvec::ArrayVec<[u8; 1024]>, bytes: &[u8])
    requires
        tx_contents(*old(buf)).len() + bytes@.len() <= SUBPACKET_SIZE,
    ensures
        tx_contents(*final(buf)) == tx_contents(*old(buf)) + bytes@,
{
    buf.extend_from_slice(bytes)
}

/// Calls `tinyvec::ArrayVec::as_slice`, the bytes held as a slice.
#[verifier::external_body]
pub(crate) fn tx_as_slice(buf: &tinyvec::ArrayVec<[u8; 1024]>) -> (s: &[u8])
    ensures
        s@ == tx_contents(*buf),
{
    buf.as_slice()
}

/// The bytes in front of the first NUL; all bytes where there is none.
pub open spec fn until_nul(s: Seq<u8>) -> Seq<u8>
    decreases s.len(),
{
    if s.len() == 0 || s[0] == 0 {
        Seq::empty()
    } else {
        seq![s[0]] + until_nul(s.skip(1))
    }
}

/// A name in the 256 bytes of a descriptor: the name, then NULs.
pub open spec fn name_field(name: Seq<u8>) -> Seq<u8> {
    Seq::new(
        256,
        |i: int|
            if i < name.len() {
                name[i]
            } else {
                0u8
            },
    )
}

/// The descriptor bytes of the file that the payload of a ZFILE subpacket
/// names: the payload begins with the name and a NUL; what follows is not
/// read. `None` for an empty name and for one of more than 255 bytes.
pub open spec fn file_named(payload: Seq<u8>) -> Option<Seq<u8>> {
    let name = until_nul(payload);
    if 0 < name.len() <= NAME_MAX {
        Some(name_field(name))
    } else {
        None
    }
}

/// Calls `BinReaderExt::read_ne::<NullString>` of the binread crate on a
/// cursor over `data`. It collects the bytes in front of the first NUL, or
/// all bytes where there is none, and fails only where the reader fails,
/// which a cursor over a slice never does.
#[verifier::external_body]
pub(crate) fn read_null_string(data: &[u8]) -> (name: Vec<u8>)
    ensures
        name@ == until_nul(data@),
{
    let mut cursor = ::binread::io::Cursor::new(data);
    ::binread::BinReaderExt::read_ne::<::binread::NullString>(&mut cursor).map(|s| s.0).unwrap_or_default()
}

/// The decimal digits of `n` in ASCII, without leading zeros.
pub open spec fn decimal(n: nat) -> Seq<u8>
    decreases n,
{
    if n < 10 {
        seq![(0x30 + n) as u8]
    } else {
        decimal(n / 10).push((0x30 + n % 10) as u8)
    }
}

/// The decimal digits of `n` in ASCII, without leading zeros.
pub fn decimal_digits(n: u32) -> (digits: Vec<u8>)
    ensures
        digits@ == decimal(n as nat),
        digits@.len() <= 10,
{
    let mut low: Vec<u8> = Vec::new();
    let mut m = n;
    assert(pow10(0) == 1);
    assert(m as nat * pow10(0) == m) by (nonlinear_arith)
        requires
            pow10(0) == 1,
    ;
    while m >= 10
        invariant
            decimal(n as nat) == decimal(m as nat) + low@.reverse(),
            low@.len() <= 9,
            m as nat * pow10(low@.len()) <= u32::MAX,
        decreases m,
    {
        let d = (m % 10) as u8 + 0x30;
        proof {
            assert(decimal(m as nat) == decimal(m as nat / 10).push(d));
            assert(low@.push(d).reverse() =~= seq![d] + low@.reverse());
            assert(decimal(m as nat / 10).push(d) + low@.reverse() =~= decimal(m as nat / 10) + (
            seq![d] + low@.reverse()));
            lemma_pow10_bound(m as nat, low@.len());
        }
        low.push(d);
        m = m / 10;
    }
    let d = m as u8 + 0x30;
    low.push(d);
    proof {
        let before = low@.drop_last();
        assert(low@.reverse() =~= seq![d] + before.reverse());
        assert(decimal(n as nat) =~= low@.reverse());
    }
    let mut digits: Vec<u8> = Vec::new();
    let mut i = low.len();
    while i > 0
        invariant
            i <= low.len(),
            digits@.len() == low.len() - i,
            forall|j: int| 0 <= j < digits@.len() ==> digits@[j] == low@[low.len() - 1 - j],
        decreases i,
    {
        i = i - 1;
        digits.push(low[i]);
    }
    assert(digits@ =~= low@.reverse());
    digits
}

/// A number below ten to the power `k` has at most `k` decimal digits, and
/// every number has one.
pub proof fn lemma_decimal_len(n: nat, k: nat)
    requires
        k >= 1,
        n < pow10(k),
    ensures
        1 <= decimal(n).len() <= k,
    decreases k,
{
    reveal_with_fuel(pow10, 2);
    if n >= 10 {
        assert(k >= 2) by {
            assert(pow10(1) == 10);
        }
        assert(n / 10 < pow10((k - 1) as nat)) by (nonlinear_arith)
            requires
                n < 10 * pow10((k - 1) as nat),
        ;
        lemma_decimal_len(n / 10, (k - 1) as nat);
    }
}

/// A number of 32 bits has at most ten decimal digits.
pub proof fn lemma_decimal_len_u32(n: u32)
    ensures
        1 <= decimal(n as nat).len() <= 10,
{
    reveal_with_fuel(pow10, 11);
    assert(pow10(10) == 10_000_000_000);
    lemma_decimal_len(n as nat, 10);
}

/// Ten to the power `k`.
pub open spec fn pow10(k: nat) -> nat
    decreases k,
{
    if k == 0 {
        1
    } else {
        10 * pow10((k - 1) as nat)
    }
}

/// A number of 32 bits that still has a digit to give has given at most
/// eight.
pub proof fn lemma_pow10_bound(m: nat, k: nat)
    requires
        m >= 10,
        m * pow10(k) <= u32::MAX,
    ensures
        k + 1 <= 9,
        (m / 10) * pow10(k + 1) <= u32::MAX,
{
    reveal_with_fuel(pow10, 11);
    assert((m / 10) * 10 <= m);
    assert((m / 10) * pow10(k + 1) == ((m / 10) * 10) * pow10(k)) by (nonlinear_arith)
        requires
            pow10(k + 1) == 10 * pow10(k),
    ;
    assert(((m / 10) * 10) * pow10(k) <= m * pow10(k)) by (nonlinear_arith)
        requires
            (m / 10) * 10 <= m,
    ;
    if k >= 9 {
        assert(pow10(9) == 1_000_000_000);
        lemma_pow10_grows(9, k);
        assert(m * pow10(k) >= 10 * pow10(9)) by (nonlinear_arith)
            requires
                m >= 10,
                pow10(k) >= pow10(9),
        ;
    }
}

/// Powers of ten grow with the exponent.
pub proof fn lemma_pow10_grows(a: nat, b: nat)
    requires
        a <= b,
    ensures
        pow10(a) <= pow10(b),
    decreases b,
{
    if a < b {
        lemma_pow10_grows(a, (b - 1) as nat);
    }
}

} // verus!
