//! The two frame checks: CRC-16/XMODEM, sent high byte first, and
//! CRC-32/ISO-HDLC, sent low byte first. Both are computed by the crc
//! crate.

use vstd::prelude::*;
use vstd::slice::slice_to_vec;

verus! {

/// One step of the division by the polynomial 0x1021, high bit first: the
/// register moves up by one bit, and the polynomial is taken off where a
/// one leaves at the top.
pub open spec fn crc16_shift(v: u16) -> u16 {
    if v & 0x8000 != 0 {
        (v << 1) ^ 0x1021
    } else {
        v << 1
    }
}

/// `n` such steps.
pub open spec fn crc16_shifts(v: u16, n: nat) -> u16
    decreases n,
{
    if n == 0 {
        v
    } else {
        crc16_shift(crc16_shifts(v, (n - 1) as nat))
    }
}

/// The CRC-16/XMODEM checksum of `data`: polynomial 0x1021, initial value
/// 0, no reflection, no final XOR. Byte after byte, the high byte of the
/// register and the byte go through eight steps of the division, and the
/// low byte of the register moves up.
pub open spec fn crc16_xmodem(data: Seq<u8>) -> u16
    decreases data.len(),
{
    if data.len() == 0 {
        0
    } else {
        let crc = crc16_xmodem(data.drop_last());
        crc16_shifts((((crc >> 8) ^ (data.last() as u16)) & 0xff) << 8, 8) ^ (crc << 8)
    }
}

/// One step of the division by the reflected polynomial 0xedb88320, low
/// bit first: the register moves down by one bit, and the polynomial is
/// taken off where a one leaves at the bottom.
pub open spec fn crc32_shift(v: u32) -> u32 {
    if v & 1 != 0 {
        (v >> 1) ^ 0xedb8_8320
    } else {
        v >> 1
    }
}

/// `n` such steps.
pub open spec fn crc32_shifts(v: u32, n: nat) -> u32
    decreases n,
{
    if n == 0 {
        v
    } else {
        crc32_shift(crc32_shifts(v, (n - 1) as nat))
    }
}

/// The register of the 32-bit check behind `data`, from the initial value
/// 0xffffffff. Byte after byte, the low byte of the register and the byte
/// go through eight steps of the division, and the rest of the register
/// moves down.
pub open spec fn crc32_register(data: Seq<u8>) -> u32
    decreases data.len(),
{
    if data.len() == 0 {
        0xffff_ffff
    } else {
        let crc = crc32_register(data.drop_last());
        crc32_shifts((crc ^ (data.last() as u32)) & 0xff, 8) ^ (crc >> 8)
    }
}

/// The CRC-32/ISO-HDLC checksum of `data`: polynomial 0xedb88320,
/// reflected, initial value and final XOR 0xffffffff.
pub open spec fn crc32_iso_hdlc(data: Seq<u8>) -> u32 {
    crc32_register(data) ^ 0xffff_ffff
}

/// The two bytes of `x`, high byte first.
pub open spec fn be16(x: u16) -> Seq<u8> {
    seq![(x / 0x100) as u8, (x % 0x100) as u8]
}

/// The four bytes of `x`, low byte first.
pub open spec fn le32(x: u32) -> Seq<u8> {
    seq![
        (x % 0x100) as u8,
        (x / 0x100 % 0x100) as u8,
        (x / 0x1_0000 % 0x100) as u8,
        (x / 0x100_0000) as u8,
    ]
}

/// The 16-bit frame check of `data` as it is sent.
pub open spec fn crc16_bytes(data: Seq<u8>) -> Seq<u8> {
    be16(crc16_xmodem(data))
}

/// The 32-bit frame check of `data` as it is sent.
pub open spec fn crc32_bytes(data: Seq<u8>) -> Seq<u8> {
    le32(crc32_iso_hdlc(data))
}

/// `buf`, followed by the subpacket terminator where there is one.
pub open spec fn with_terminator(buf: Seq<u8>, maybe_zcrc: Option<u8>) -> Seq<u8> {
    match maybe_zcrc {
        Some(zcrc) => buf.push(zcrc),
        None => buf,
    }
}

/// Calls `crc::Crc::<u16>::checksum` on a `Crc` made from the catalogue
/// entry `crc::CRC_16_XMODEM`: width 16, polynomial 0x1021, initial value 0,
/// no reflection, no final XOR. The crate reads the eight steps for the
/// high byte from a table and moves the low byte up, byte after byte, as
/// `crc16_xmodem` does.
#[verifier::external_body]
pub(crate) fn crc16_checksum(data: &[u8]) -> (r: u16)
    ensures
        r == crc16_xmodem(data@),
{
    ::crc::Crc::<u16>::new(&::crc::CRC_16_XMODEM).checksum(data)
}

/// Calls `crc::Crc::<u32>::checksum` on a `Crc` made from the catalogue
/// entry `crc::CRC_32_ISO_HDLC`: width 32, polynomial 0x04c11db7, which is
/// 0xedb88320 reflected, input and output reflected, initial value and
/// final XOR 0xffffffff. The crate reads the eight steps for the low byte
/// from a table and moves the rest down, byte after byte, as
/// `crc32_iso_hdlc` does.
#[verifier::external_body]
pub(crate) fn crc32_checksum(data: &[u8]) -> (r: u32)
    ensures
        r == crc32_iso_hdlc(data@),
{
    ::crc::Crc::<u32>::new(&::crc::CRC_32_ISO_HDLC).checksum(data)
}

/// The two bytes of `x`, high byte first.
pub fn be16_bytes(x: u16) -> (r: [u8; 2])
    ensures
        r@ == be16(x),
{
    let r = [(x / 0x100) as u8, (x % 0x100) as u8];
    assert(r@ =~= be16(x));
    r
}

/// The four bytes of `x`, low byte first.
pub fn le32_bytes(x: u32) -> (r: [u8; 4])
    ensures
        r@ == le32(x),
{
    let r = [
        (x % 0x100) as u8,
        (x / 0x100 % 0x100) as u8,
        (x / 0x1_0000 % 0x100) as u8,
        (x / 0x100_0000) as u8,
    ];
    assert(r@ =~= le32(x));
    r
}

/// The 16-bit frame check of `buf`, followed by `maybe_zcrc` where it is
/// given, high byte first.
pub fn get_crc16(buf: &[u8], maybe_zcrc: Option<u8>) -> (r: [u8; 2])
    ensures
        r@ == crc16_bytes(with_terminator(buf@, maybe_zcrc)),
{
    let crc = match maybe_zcrc {
        Some(zcrc) => {
            let mut all = slice_to_vec(buf);
            all.push(zcrc);
            crc16_checksum(all.as_slice())
        },
        None => crc16_checksum(buf),
    };
    be16_bytes(crc)
}

/// The 32-bit frame check of `buf`, followed by `maybe_zcrc` where it is
/// given, low byte first.
pub fn get_crc32(buf: &[u8], maybe_zcrc: Option<u8>) -> (r: [u8; 4])
    ensures
        r@ == crc32_bytes(with_terminator(buf@, maybe_zcrc)),
{
    let crc = match maybe_zcrc {
        Some(zcrc) => {
            let mut all = slice_to_vec(buf);
            all.push(zcrc);
            crc32_checksum(all.as_slice())
        },
        None => crc32_checksum(buf),
    };
    le32_bytes(crc)
}

} // verus!
