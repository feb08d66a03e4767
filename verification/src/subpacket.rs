//! The subpacket codec: a run of escaped data octets, ended by ZDLE, one of
//! four terminators and the frame check of data and terminator.

use vstd::prelude::*;
use vstd::slice::slice_subrange;
use crate::escape::{
    escape_seq, escape_u8_array, lemma_plain_is_not_zdle, lemma_unescape_inverts_escape,
    needs_escape, unescape_byte, unescaped, wire_form, ZDLE,
};
use crate::frame::{check_crc, crc_bytes, crc_len, lemma_crc_bytes_len, make_crc};
use crate::port::{
    lemma_scan_octets_escaped, lemma_scan_octets_not_bad, lemma_scan_octets_stable,
    lemma_took_chain, lemma_took_rest, read_byte, read_octets, scan_octets, settled, Port, Scan,
};
use crate::tags::{lemma_packet_tag, Encoding, Packet};
use crate::InvalidData;

verus! {

/// How many data octets a subpacket of the sender carries at most.
pub const SUBPACKET_SIZE: usize = 1024;

/// How many bytes the receive buffer holds: the data octets of one
/// subpacket and its terminator.
pub const RX_CAPACITY: usize = 2048;

/// Makes `tinyvec::ArrayVec`, a vector in an array of fixed size, known to
/// the verifier, which sees nothing inside it.
#[verifier::external_type_specification]
#[verifier::external_body]
#[verifier::reject_recursive_types(A)]
pub struct ExArrayVec<A>(tinyvec::ArrayVec<A>);

/// Receive buffer: a vector of at most `RX_CAPACITY` bytes that needs no
/// heap.
pub type RxBuffer = tinyvec::ArrayVec<[u8; 2048]>;

/// The bytes that a receive buffer, a `tinyvec::ArrayVec`, holds, oldest
/// first.
pub uninterp spec fn rx_contents(buf: tinyvec::ArrayVec<[u8; 2048]>) -> Seq<u8>;

/// Calls `tinyvec::ArrayVec::new`, which makes an empty vector.
#[verifier::external_body]
pub(crate) fn rx_new() -> (buf: tinyvec::ArrayVec<[u8; 2048]>)
    ensures
        rx_contents(buf) == Seq::<u8>::empty(),
{
    tinyvec::ArrayVec::new()
}

/// Calls `tinyvec::ArrayVec::len`, the number of bytes held. It is never
/// above the capacity of the backing array.
#[verifier::external_body]
pub(crate) fn rx_len(buf: &tinyvec::ArrayVec<[u8; 2048]>) -> (n: usize)
    ensures
        n == rx_contents(*buf).len(),
        n <= RX_CAPACITY,
{
    buf.len()
}

/// Calls `tinyvec::ArrayVec::push`, which appends one byte and panics on a
/// full vector: the `requires` keeps full vectors out.
#[verifier::external_body]
pub(crate) fn rx_push(buf: &mut tinyvec::ArrayVec<[u8; 2048]>, b: u8)
    requires
        rx_contents(*old(buf)).len() < RX_CAPACITY,
    ensures
        rx_contents(*final(buf)) == rx_contents(*old(buf)).push(b),
{
    buf.push(b)
}

/// Calls `tinyvec::ArrayVec::truncate`, which keeps the first `len` bytes
/// and leaves a vector that is no longer than that as it is.
#[verifier::external_body]
pub(crate) fn rx_truncate(buf: &mut tinyvec::ArrayVec<[u8; 2048]>, len: usize)
    ensures
        rx_contents(*final(buf)) == if len < rx_contents(*old(buf)).len() {
            rx_contents(*old(buf)).take(len as int)
        } else {
            rx_contents(*old(buf))
        },
{
    buf.truncate(len)
}

/// Calls `tinyvec::ArrayVec::as_slice`, the bytes held as a slice.
#[verifier::external_body]
pub(crate) fn rx_as_slice(buf: &tinyvec::ArrayVec<[u8; 2048]>) -> (s: &[u8])
    ensures
        s@ == rx_contents(*buf),
{
    buf.as_slice()
}

/// A subpacket on the wire: the escaped data, ZDLE and the terminator, and
/// the escaped frame check of data and terminator.
pub open spec fn subpacket_framed(kind: Packet, data: Seq<u8>, check: Seq<u8>) -> Seq<u8> {
    escape_seq(data) + seq![ZDLE, kind.byte()] + escape_seq(check)
}

/// A subpacket on the wire.
pub open spec fn subpacket_wire(encoding: Encoding, kind: Packet, data: Seq<u8>) -> Seq<u8> {
    subpacket_framed(kind, data, crc_bytes(encoding, data.push(kind.byte())))
}

/// What `rest` read, behind the data octets `front` that took `used` bytes.
pub open spec fn payload_after(front: Seq<u8>, used: nat, rest: Scan<(Seq<u8>, Packet)>) -> Scan<
    (Seq<u8>, Packet),
> {
    match rest {
        Scan::Done { value, used: more } => Scan::Done {
            value: (front + value.0, value.1),
            used: used + more,
        },
        Scan::Bad { used: more } => Scan::Bad { used: used + more },
        Scan::Short => Scan::Short,
    }
}

/// The data octets of a subpacket and its terminator, where the buffer has
/// room for `room` more bytes. A plain byte is a data octet; ZDLE and a
/// terminator end the data; ZDLE and any other byte are one data octet.
/// Each octet and the terminator take one byte of room, and what finds no
/// room is refused.
pub open spec fn scan_payload(s: Seq<u8>, room: nat) -> Scan<(Seq<u8>, Packet)>
    decreases s.len(),
{
    if s.len() == 0 {
        Scan::Short
    } else if s[0] != ZDLE {
        if room == 0 {
            Scan::Bad { used: 1 }
        } else {
            payload_after(seq![s[0]], 1, scan_payload(s.skip(1), (room - 1) as nat))
        }
    } else if s.len() < 2 {
        Scan::Short
    } else if room == 0 {
        Scan::Bad { used: 2 }
    } else {
        match Packet::of_byte(s[1]) {
            Some(kind) => Scan::Done { value: (Seq::empty(), kind), used: 2 },
            None => payload_after(
                seq![unescaped(s[1])],
                2,
                scan_payload(s.skip(2), (room - 1) as nat),
            ),
        }
    }
}

/// A whole subpacket: data and terminator, then the frame check, which
/// must be that of data and terminator. The check has four octets for
/// ZBIN32 and two for the other encodings.
pub open spec fn scan_subpacket(s: Seq<u8>, encoding: Encoding, room: nat) -> Scan<
    (Seq<u8>, Packet),
> {
    match scan_payload(s, room) {
        Scan::Done { value, used } => match scan_octets(s.skip(used as int), crc_len(encoding)) {
            Scan::Done { value: check, used: more } => if check == crc_bytes(
                encoding,
                value.0.push(value.1.byte()),
            ) {
                Scan::Done { value, used: used + more }
            } else {
                Scan::Bad { used: used + more }
            },
            _ => Scan::Short,
        },
        Scan::Bad { used } => Scan::Bad { used },
        Scan::Short => Scan::Short,
    }
}

/// What reading a subpacket into a buffer returns and leaves behind, where
/// the read came to `scan`: the terminator, with the data appended to the
/// buffer; or an error and the buffer as it was.
pub open spec fn reads_subpacket(
    before: Port,
    after: Port,
    held: Seq<u8>,
    holds: Seq<u8>,
    scan: Scan<(Seq<u8>, Packet)>,
    r: Result<Packet, InvalidData>,
) -> bool {
    match scan {
        Scan::Done { value, used } => {
            &&& r == Ok::<Packet, InvalidData>(value.1)
            &&& after.took(before, used)
            &&& !after.starved()
            &&& holds =~= held + value.0
        },
        Scan::Bad { used } => {
            &&& r is Err
            &&& after.took(before, used)
            &&& !after.starved()
            &&& holds =~= held
        },
        Scan::Short => {
            &&& r is Err
            &&& after.took(before, before.pending().len())
            &&& after.starved()
            &&& holds =~= held
        },
    }
}

/// Appends to `out` the subpacket whose frame check is `check`.
pub fn frame_subpacket(kind: Packet, data: &[u8], check: &[u8], out: &mut Vec<u8>)
    ensures
        final(out)@ == old(out)@ + subpacket_framed(kind, data@, check@),
{
    let ghost before = out@;
    escape_u8_array(data, out);
    out.push(ZDLE);
    out.push(kind.as_u8());
    escape_u8_array(check, out);
    assert(out@ =~= before + subpacket_framed(kind, data@, check@));
}

/// Queues a subpacket on the port. ZHEX has no subpackets and is refused;
/// the two binary encodings never fail.
pub fn write_subpacket(port: &mut Port, encoding: Encoding, kind: Packet, data: &[u8]) -> (r:
    Result<(), InvalidData>)
    ensures
        encoding == Encoding::ZHEX ==> r is Err && *final(port) == *old(port),
        encoding != Encoding::ZHEX ==> r is Ok && final(port).wrote(
            *old(port),
            subpacket_wire(encoding, kind, data@),
        ),
{
    if encoding == Encoding::ZHEX {
        return Err(InvalidData);
    }
    let mut covered = vstd::slice::slice_to_vec(data);
    covered.push(kind.as_u8());
    let mut check: Vec<u8> = Vec::new();
    make_crc(covered.as_slice(), &mut check, encoding);
    let mut out: Vec<u8> = Vec::new();
    frame_subpacket(kind, data, check.as_slice(), &mut out);
    port.write_all(out.as_slice());
    Ok(())
}

/// One more item read moves from the front of what is left to the back of
/// what was read, or ends the read.
pub proof fn lemma_scan_payload_step(front: Seq<u8>, used: nat, s: Seq<u8>, room: nat)
    ensures
        ({
            let whole = payload_after(front, used, scan_payload(s, room));
            if s.len() == 0 {
                whole == Scan::<(Seq<u8>, Packet)>::Short
            } else if s[0] != ZDLE {
                if room == 0 {
                    whole == (Scan::<(Seq<u8>, Packet)>::Bad { used: used + 1 })
                } else {
                    whole == payload_after(
                        front.push(s[0]),
                        used + 1,
                        scan_payload(s.skip(1), (room - 1) as nat),
                    )
                }
            } else if s.len() < 2 {
                whole == Scan::<(Seq<u8>, Packet)>::Short
            } else if room == 0 {
                whole == (Scan::<(Seq<u8>, Packet)>::Bad { used: used + 2 })
            } else {
                match Packet::of_byte(s[1]) {
                    Some(kind) => whole == (Scan::Done { value: (front, kind), used: used + 2 }),
                    None => whole == payload_after(
                        front.push(unescaped(s[1])),
                        used + 2,
                        scan_payload(s.skip(2), (room - 1) as nat),
                    ),
                }
            }
        }),
{
    if s.len() == 0 {
    } else if s[0] != ZDLE {
        if room > 0 {
            match scan_payload(s.skip(1), (room - 1) as nat) {
                Scan::Done { value, used: more } => {
                    assert(front + (seq![s[0]] + value.0) == front.push(s[0]) + value.0);
                },
                _ => {},
            }
        }
    } else if s.len() < 2 {
    } else if room == 0 {
    } else {
        match Packet::of_byte(s[1]) {
            Some(kind) => {
                assert(front + Seq::<u8>::empty() == front);
            },
            None => {
                match scan_payload(s.skip(2), (room - 1) as nat) {
                    Scan::Done { value, used: more } => {
                        assert(front + (seq![unescaped(s[1])] + value.0) == front.push(
                            unescaped(s[1]),
                        ) + value.0);
                    },
                    _ => {},
                }
            },
        }
    }
}

/// Reads one subpacket: the data octets are appended to `buf`, and the
/// terminator is returned. Where the subpacket is refused or the bytes run
/// out, `buf` is left as it was.
pub fn read_subpacket(port: &mut Port, encoding: Encoding, buf: &mut RxBuffer) -> (r: Result<
    Packet,
    InvalidData,
>)
    ensures
        reads_subpacket(
            *old(port),
            *final(port),
            rx_contents(*old(buf)),
            rx_contents(*final(buf)),
            scan_subpacket(
                old(port).pending(),
                encoding,
                (RX_CAPACITY - rx_contents(*old(buf)).len()) as nat,
            ),
            r,
        ),
{
    let start = rx_len(buf);
    let ghost held = rx_contents(*buf);
    let ghost whole = scan_payload(old(port).pending(), (RX_CAPACITY - start) as nat);
    let ghost mut used: nat = 0;
    let ghost mut got: Seq<u8> = Seq::empty();
    let mut ended: Option<Packet> = None;
    proof {
        let p = old(port).pending();
        assert(p.take(0) == Seq::<u8>::empty());
        assert(p.skip(0) == p);
        assert(old(port).consumed() + Seq::<u8>::empty() == old(port).consumed());
        assert(held + got == held);
        match whole {
            Scan::Done { value, used } => {
                assert(Seq::<u8>::empty() + value.0 == value.0);
            },
            _ => {},
        }
    }
    while ended.is_none()
        invariant
            port.took(*old(port), used),
            used > 0 ==> !port.starved(),
            ended is Some ==> used > 0,
            rx_contents(*buf) == held + got,
            held == rx_contents(*old(buf)),
            held.len() == start,
            start + got.len() <= RX_CAPACITY,
            whole == scan_payload(old(port).pending(), (RX_CAPACITY - start) as nat),
            match ended {
                None => whole == payload_after(
                    got,
                    used,
                    scan_payload(port.pending(), (RX_CAPACITY - start - got.len()) as nat),
                ),
                Some(kind) => start + got.len() < RX_CAPACITY && whole == (Scan::Done {
                    value: (got, kind),
                    used,
                }),
            },
        decreases port.pending().len(),
    {
        let ghost mid = *port;
        proof {
            lemma_scan_payload_step(
                got,
                used,
                port.pending(),
                (RX_CAPACITY - start - got.len()) as nat,
            );
        }
        let byte = match read_byte(port) {
            Ok(b) => b,
            Err(e) => {
                proof {
                    lemma_took_rest(*old(port), mid, *port, used);
                }
                rx_truncate(buf, start);
                assert(rx_contents(*buf) =~= held);
                return Err(e);
            },
        };
        if byte == ZDLE {
            let ghost mid2 = *port;
            proof {
                lemma_took_chain(*old(port), mid, mid2, used, 1);
            }
            let byte2 = match read_byte(port) {
                Ok(b) => b,
                Err(e) => {
                    proof {
                        lemma_took_rest(*old(port), mid2, *port, used + 1);
                    }
                    rx_truncate(buf, start);
                    assert(rx_contents(*buf) =~= held);
                    return Err(e);
                },
            };
            proof {
                lemma_took_chain(*old(port), mid2, *port, used + 1, 1);
                assert(mid.pending().skip(1).skip(1) == mid.pending().skip(2));
                used = used + 2;
            }
            if rx_len(buf) >= RX_CAPACITY {
                rx_truncate(buf, start);
                assert(rx_contents(*buf) =~= held);
                return Err(InvalidData);
            }
            match Packet::try_from(byte2) {
                Ok(kind) => {
                    ended = Some(kind);
                },
                Err(_) => {
                    let octet = unescape_byte(byte2);
                    rx_push(buf, octet);
                    proof {
                        got = got.push(octet);
                    }
                    assert(rx_contents(*buf) =~= held + got);
                },
            }
        } else {
            proof {
                lemma_took_chain(*old(port), mid, *port, used, 1);
                used = used + 1;
            }
            if rx_len(buf) >= RX_CAPACITY {
                rx_truncate(buf, start);
                assert(rx_contents(*buf) =~= held);
                return Err(InvalidData);
            }
            rx_push(buf, byte);
            proof {
                got = got.push(byte);
            }
            assert(rx_contents(*buf) =~= held + got);
        }
    }
    let kind = match ended {
        Some(kind) => kind,
        None => {
            return Err(InvalidData);
        },
    };
    rx_push(buf, kind.as_u8());
    let ghost mid = *port;
    let check = match read_octets(port, if encoding == Encoding::ZBIN32 {
        4
    } else {
        2
    }) {
        Ok(check) => check,
        Err(e) => {
            proof {
                lemma_scan_octets_not_bad(mid.pending(), crc_len(encoding));
                lemma_took_rest(*old(port), mid, *port, used);
            }
            rx_truncate(buf, start);
            assert(rx_contents(*buf) =~= held);
            return Err(e);
        },
    };
    proof {
        let more = scan_octets(mid.pending(), crc_len(encoding))->Done_used;
        lemma_took_chain(*old(port), mid, *port, used, more);
    }
    let len = rx_len(buf);
    let covered = slice_subrange(rx_as_slice(buf), start, len);
    assert(covered@ =~= got.push(kind.byte()));
    match check_crc(covered, check.as_slice(), encoding) {
        Ok(()) => {
            rx_truncate(buf, len - 1);
            assert(rx_contents(*buf) =~= held + got);
            Ok(kind)
        },
        Err(e) => {
            rx_truncate(buf, start);
            assert(rx_contents(*buf) =~= held);
            Err(e)
        },
    }
}

/// Reading data and terminator takes at least one byte, and no more than
/// there are.
pub proof fn lemma_scan_payload_used(s: Seq<u8>, room: nat)
    ensures
        match scan_payload(s, room) {
            Scan::Done { value, used } => 2 <= used <= s.len(),
            Scan::Bad { used } => 1 <= used <= s.len(),
            Scan::Short => true,
        },
    decreases s.len(),
{
    if s.len() == 0 {
    } else if s[0] != ZDLE {
        if room > 0 {
            lemma_scan_payload_used(s.skip(1), (room - 1) as nat);
        }
    } else if s.len() < 2 {
    } else if room == 0 {
    } else if Packet::of_byte(s[1]) is None {
        lemma_scan_payload_used(s.skip(2), (room - 1) as nat);
    }
}

/// Reading a subpacket takes at least one byte, and no more than there
/// are.
pub proof fn lemma_scan_subpacket_used(s: Seq<u8>, encoding: Encoding, room: nat)
    ensures
        match scan_subpacket(s, encoding, room) {
            Scan::Done { value, used } => 1 <= used <= s.len(),
            Scan::Bad { used } => 1 <= used <= s.len(),
            Scan::Short => true,
        },
{
    lemma_scan_payload_used(s, room);
    match scan_payload(s, room) {
        Scan::Done { value, used } => {
            lemma_scan_octets_not_bad(s.skip(used as int), crc_len(encoding));
        },
        _ => {},
    }
}

/// What data and terminator were read as does not change when more bytes
/// come in behind them.
pub proof fn lemma_scan_payload_stable(s: Seq<u8>, room: nat, more: Seq<u8>)
    requires
        settled(scan_payload(s, room)),
    ensures
        scan_payload(s + more, room) == scan_payload(s, room),
    decreases s.len(),
{
    let all = s + more;
    assert(all[0] == s[0]);
    if s[0] != ZDLE {
        if room > 0 {
            assert(all.skip(1) =~= s.skip(1) + more);
            lemma_scan_payload_stable(s.skip(1), (room - 1) as nat, more);
        }
    } else {
        assert(all[1] == s[1]);
        if room > 0 && Packet::of_byte(s[1]) is None {
            assert(all.skip(2) =~= s.skip(2) + more);
            lemma_scan_payload_stable(s.skip(2), (room - 1) as nat, more);
        }
    }
}

/// What a subpacket was read as does not change when more bytes come in
/// behind it.
pub proof fn lemma_scan_subpacket_stable(s: Seq<u8>, encoding: Encoding, room: nat, more: Seq<u8>)
    requires
        settled(scan_subpacket(s, encoding, room)),
    ensures
        scan_subpacket(s + more, encoding, room) == scan_subpacket(s, encoding, room),
{
    lemma_scan_payload_stable(s, room, more);
    lemma_scan_payload_used(s, room);
    match scan_payload(s, room) {
        Scan::Done { value, used } => {
            assert((s + more).skip(used as int) =~= s.skip(used as int) + more);
            lemma_scan_octets_not_bad(s.skip(used as int), crc_len(encoding));
            lemma_scan_octets_stable(s.skip(used as int), crc_len(encoding), more);
        },
        _ => {},
    }
}

/// Data octets that were escaped and sent, and the terminator behind them,
/// are read back as they were, where the buffer has room for them.
pub proof fn lemma_scan_payload_escaped(data: Seq<u8>, kind: Packet, behind: Seq<u8>, room: nat)
    requires
        data.len() < room,
    ensures
        scan_payload(escape_seq(data) + (seq![ZDLE, kind.byte()] + behind), room) == (Scan::Done {
            value: (data, kind),
            used: escape_seq(data).len() + 2,
        }),
    decreases data.len(),
{
    let end = seq![ZDLE, kind.byte()] + behind;
    let s = escape_seq(data) + end;
    if data.len() == 0 {
        assert(escape_seq(data).len() == 0);
        assert(s =~= end);
        assert(s[0] == ZDLE);
        assert(s[1] == kind.byte());
        lemma_packet_tag(kind);
        assert(data =~= Seq::<u8>::empty());
    } else {
        let b = data[0];
        let tail = data.skip(1);
        let w = wire_form(b);
        assert(s =~= w + (escape_seq(tail) + end));
        assert(s.skip(w.len() as int) =~= escape_seq(tail) + end);
        lemma_scan_payload_escaped(tail, kind, behind, (room - 1) as nat);
        assert(seq![b] + tail =~= data);
        assert(escape_seq(data).len() == w.len() + escape_seq(tail).len());
        if needs_escape(b) {
            lemma_unescape_inverts_escape(b);
            assert(s[0] == ZDLE);
            assert(s[1] == crate::escape::escaped(b));
            assert(Packet::of_byte(s[1]) is None);
        } else {
            lemma_plain_is_not_zdle(b);
            assert(s[0] == b);
        }
    }
}

/// What reading makes of a subpacket whose frame check field holds
/// `check`: it is read as it was written where `check` is the frame check
/// of data and terminator, and refused where it is not.
pub proof fn lemma_scan_subpacket_framed(
    encoding: Encoding,
    kind: Packet,
    data: Seq<u8>,
    check: Seq<u8>,
    rest: Seq<u8>,
    room: nat,
)
    requires
        data.len() < room,
        check.len() == crc_len(encoding),
    ensures
        check == crc_bytes(encoding, data.push(kind.byte())) ==> scan_subpacket(
            subpacket_framed(kind, data, check) + rest,
            encoding,
            room,
        ) == (Scan::Done { value: (data, kind), used: subpacket_framed(kind, data, check).len() }),
        check != crc_bytes(encoding, data.push(kind.byte())) ==> scan_subpacket(
            subpacket_framed(kind, data, check) + rest,
            encoding,
            room,
        ) is Bad,
{
    let s = subpacket_framed(kind, data, check) + rest;
    let behind = escape_seq(check) + rest;
    assert(s =~= escape_seq(data) + (seq![ZDLE, kind.byte()] + behind));
    lemma_scan_payload_escaped(data, kind, behind, room);
    let used = escape_seq(data).len() + 2;
    assert(s.skip(used as int) =~= behind);
    lemma_scan_octets_escaped(check, rest);
}

/// Subpacket round trip: what a subpacket was written as, in either
/// binary encoding, is read back as the same terminator and data, whatever
/// follows it on the channel, where the buffer has room for the data and
/// the terminator.
pub proof fn lemma_subpacket_round_trip(
    encoding: Encoding,
    kind: Packet,
    data: Seq<u8>,
    rest: Seq<u8>,
    room: nat,
)
    requires
        data.len() < room,
    ensures
        scan_subpacket(subpacket_wire(encoding, kind, data) + rest, encoding, room) == (Scan::Done {
            value: (data, kind),
            used: subpacket_wire(encoding, kind, data).len(),
        }),
{
    let check = crc_bytes(encoding, data.push(kind.byte()));
    lemma_crc_bytes_len(encoding, data.push(kind.byte()));
    lemma_scan_subpacket_framed(encoding, kind, data, check, rest, room);
}

/// Frame check rejection: a subpacket whose frame check field holds
/// anything of the right length but the frame check of data and terminator
/// is refused. That covers every field with one bit flipped.
pub proof fn lemma_subpacket_crc_rejection(
    encoding: Encoding,
    kind: Packet,
    data: Seq<u8>,
    check: Seq<u8>,
    rest: Seq<u8>,
    room: nat,
)
    requires
        data.len() < room,
        check.len() == crc_len(encoding),
        check != crc_bytes(encoding, data.push(kind.byte())),
    ensures
        scan_subpacket(subpacket_framed(kind, data, check) + rest, encoding, room) is Bad,
{
    lemma_scan_subpacket_framed(encoding, kind, data, check, rest, room);
}

} // verus!
