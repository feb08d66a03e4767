//! The receiving endpoint: it answers the frames of a sender, hands the
//! data of the file on and keeps count of it.

use vstd::prelude::*;
use crate::crc::le32;
use crate::file::{
    file_named, zrinit_header, znak_header, zrpos_header, File, Zrinit, CANCRY, CANFC32, CANOVIO,
};
use crate::frame::{
    header_with, lemma_scan_header_stable, lemma_scan_header_used, scan_header, Header,
};
use crate::port::{
    lemma_exchange_chain, lemma_rewound, lemma_took_chain, lemma_took_rest, lemma_took_silent,
    lemma_scan_zpad_stable, lemma_took_wrote, read_zpad, scan_zpad, Port, Scan,
};
use crate::subpacket::{
    lemma_scan_subpacket_stable, lemma_scan_subpacket_used, read_subpacket, rx_as_slice, rx_new, scan_subpacket, RX_CAPACITY,
};
use crate::tags::{Encoding, Frame, Packet};
use crate::InvalidData;

verus! {

/// Where the data of the file goes: it takes every slice whole, in order.
///
/// A sink may keep account of what it took: it then says so in
/// `keeps_account`, gives the bytes in `taken`, and its `write` is held to
/// them. A sink that does not say so promises nothing.
pub trait Writer {
    /// Whether the sink keeps account of what it took, as `taken` has it.
    open spec fn keeps_account() -> bool {
        false
    }

    /// All the bytes that the sink took, in order, where it keeps account.
    open spec fn taken(&self) -> Seq<u8> {
        Seq::empty()
    }

    /// Takes the bytes of `buf`, or fails and takes none.
    fn write(&mut self, buf: &[u8]) -> (r: Result<(), InvalidData>)
        ensures
            Self::keeps_account() && r is Ok ==> final(self).taken() == old(self).taken() + buf@,
            Self::keeps_account() && r is Err ==> final(self).taken() == old(self).taken(),
    ;
}

/// A vector as a sink: it takes all that it is handed, behind what it
/// holds, and never fails.
impl Writer for Vec<u8> {
    open spec fn keeps_account() -> bool {
        true
    }

    open spec fn taken(&self) -> Seq<u8> {
        self@
    }

    fn write(&mut self, buf: &[u8]) -> (r: Result<(), InvalidData>)
        ensures
            r is Ok,
    {
        self.extend_from_slice(buf);
        Ok(())
    }
}

/// What the receiver can do: decrypt, receive during disk I/O, and use the
/// 32-bit frame check.
pub const RECEIVER_CAPABILITIES: u8 = 0x2a;

/// The ZRINIT header of this receiver: its capabilities and no buffer
/// size, in hex.
pub open spec fn ready_header() -> Header {
    zrinit_header(Encoding::ZHEX, RECEIVER_CAPABILITIES, 0)
}

/// The ZACK header, in hex, that confirms `count` bytes.
pub open spec fn zack_header(count: u32) -> Header {
    header_with(Encoding::ZHEX, Frame::ZACK, le32(count))
}

/// The ZFIN header, in hex.
pub open spec fn zfin_header() -> Header {
    header_with(Encoding::ZHEX, Frame::ZFIN, seq![0u8, 0u8, 0u8, 0u8])
}

/// The descriptor bytes of the file that is open, if one is.
pub open spec fn open_file(file: Option<File>) -> Option<Seq<u8>> {
    match file {
        Some(f) => Some(f.bytes()),
        None => None,
    }
}

/// What one step of the receiver comes to.
pub struct RxStep {
    /// The bytes ran out: the step reads nothing and does nothing.
    pub starved: bool,
    /// The step fails: the file has no usable name, or the count of bytes
    /// would pass 32 bits.
    pub fatal: bool,
    /// How many pending bytes the step reads.
    pub used: nat,
    /// What the step answers.
    pub reply: Seq<u8>,
    /// The data of the file that the step read.
    pub data: Seq<u8>,
    /// The descriptor bytes of the file that is open after the step.
    pub file: Option<Seq<u8>>,
    /// The number of bytes received after the step.
    pub count: u32,
    /// The encoding of the data frame that the next step reads on, if it
    /// reads on one.
    pub stream: Option<Encoding>,
    /// Whether the session is over.
    pub finished: bool,
}

/// A step that reads `used` bytes, answers `reply` and changes nothing.
pub open spec fn rx_pass(
    file: Option<Seq<u8>>,
    count: u32,
    used: nat,
    reply: Seq<u8>,
) -> RxStep {
    RxStep {
        starved: false,
        fatal: false,
        used,
        reply,
        data: Seq::empty(),
        file,
        count,
        stream: None,
        finished: false,
    }
}

/// The step that finds too few bytes.
pub open spec fn rx_starved(file: Option<Seq<u8>>, count: u32, stream: Option<Encoding>) -> RxStep {
    RxStep {
        starved: true,
        fatal: false,
        used: 0,
        reply: Seq::empty(),
        data: Seq::empty(),
        file,
        count,
        stream,
        finished: false,
    }
}

/// What the receiver does on a header that it read with `used` bytes,
/// where `behind` is pending behind the header.
///
/// ZFILE, while no file is open or no byte was received: the subpacket
/// behind it is read and answered, and names the file. ZDATA: without an
/// open file ZRINIT is sent again; at another offset than the count, ZRPOS
/// asks for the count; at the count, the data frame is read on. ZEOF
/// with an open file: at the count, ZRINIT is sent; elsewhere nothing.
/// ZFIN with an open file: ZFIN is sent and the session is over. Any
/// other frame: ZRINIT where no file is open, nothing where one is.
pub open spec fn rx_on_header(
    file: Option<Seq<u8>>,
    count: u32,
    h: Header,
    used: nat,
    behind: Seq<u8>,
) -> RxStep {
    if h.kind == Frame::ZFILE {
        if file is None || count == 0 {
            match scan_subpacket(behind, h.encoding, RX_CAPACITY as nat) {
                Scan::Short => rx_starved(file, count, None),
                Scan::Bad { used: more } => rx_pass(None, count, used + more, znak_header().wire()),
                Scan::Done { value, used: more } => match file_named(value.0) {
                    Some(bytes) => rx_pass(
                        Some(bytes),
                        count,
                        used + more,
                        zrpos_header(0).wire(),
                    ),
                    None => RxStep {
                        fatal: true,
                        ..rx_pass(file, count, used + more, zrpos_header(0).wire())
                    },
                },
            }
        } else {
            rx_pass(file, count, used, Seq::empty())
        }
    } else if h.kind == Frame::ZDATA {
        if file is None {
            rx_pass(file, count, used, ready_header().wire())
        } else if h.count_value() != count {
            rx_pass(file, count, used, zrpos_header(count).wire())
        } else {
            RxStep { stream: Some(h.encoding), ..rx_pass(file, count, used, Seq::empty()) }
        }
    } else if file is None {
        rx_pass(file, count, used, ready_header().wire())
    } else if h.kind == Frame::ZEOF {
        if h.count_value() != count {
            rx_pass(file, count, used, Seq::empty())
        } else {
            rx_pass(file, count, used, ready_header().wire())
        }
    } else if h.kind == Frame::ZFIN {
        RxStep { finished: true, ..rx_pass(file, count, used, zfin_header().wire()) }
    } else {
        rx_pass(file, count, used, Seq::empty())
    }
}

/// What the receiver does on a subpacket of the data frame that it reads
/// on. A subpacket that is refused is answered with ZRPOS for the count,
/// and ends the frame. The data of one that was read is kept and counted; ZCRCW and ZCRCQ are answered with ZACK for the new count;
/// ZCRCW and ZCRCE end the frame.
pub open spec fn rx_on_data(
    file: Option<Seq<u8>>,
    count: u32,
    encoding: Encoding,
    p: Seq<u8>,
) -> RxStep {
    match scan_subpacket(p, encoding, RX_CAPACITY as nat) {
        Scan::Short => rx_starved(file, count, Some(encoding)),
        Scan::Bad { used } => rx_pass(file, count, used, zrpos_header(count).wire()),
        Scan::Done { value, used } => if count + value.0.len() > u32::MAX {
            RxStep {
                fatal: true,
                stream: Some(encoding),
                ..rx_pass(file, count, used, Seq::empty())
            }
        } else {
            let total = (count + value.0.len()) as u32;
            RxStep {
                data: value.0,
                count: total,
                stream: if value.1 == Packet::ZCRCW || value.1 == Packet::ZCRCE {
                    None
                } else {
                    Some(encoding)
                },
                reply: if value.1 == Packet::ZCRCW || value.1 == Packet::ZCRCQ {
                    zack_header(total).wire()
                } else {
                    Seq::empty()
                },
                ..rx_pass(file, count, used, Seq::empty())
            }
        },
    }
}

/// One step of the receiver on the pending bytes `p`: inside a data frame
/// it reads one subpacket; elsewhere it reads the opening sequence of a
/// header, and skips what is none; then the header, and answers ZNAK to
/// what is none; then it acts on the header.
#[verifier::opaque]
pub open spec fn rx_step(
    file: Option<Seq<u8>>,
    count: u32,
    stream: Option<Encoding>,
    p: Seq<u8>,
) -> RxStep {
    match stream {
        Some(encoding) => rx_on_data(file, count, encoding, p),
        None => match scan_zpad(p) {
            Scan::Short => rx_starved(file, count, None),
            Scan::Bad { used } => rx_pass(file, count, used, Seq::empty()),
            Scan::Done { value, used } => match scan_header(p.skip(used as int)) {
                Scan::Short => rx_starved(file, count, None),
                Scan::Bad { used: more } => rx_pass(file, count, used + more, znak_header().wire()),
                Scan::Done { value: h, used: more } => rx_on_header(
                    file,
                    count,
                    h,
                    used + more,
                    p.skip((used + more) as int),
                ),
            },
        },
    }
}

/// What a step returns and leaves behind, where it comes to `step`, for
/// the port, the state and the data read so far.
///
/// Where the bytes ran out, all are as they were, but for a starved port,
/// and the step fails. Where the step is fatal, it fails behind what it
/// read and answered. Elsewhere it leaves the port and the state of
/// `step`, appends the data that it read, and tells whether the session is
/// over.
pub open spec fn rx_stepped(
    step: RxStep,
    before: Port,
    after: Port,
    was: (Option<File>, u32, Option<Encoding>),
    is: (Option<File>, u32, Option<Encoding>),
    held: Seq<u8>,
    holds: Seq<u8>,
    r: Result<bool, InvalidData>,
) -> bool {
    if step.starved {
        &&& r is Err
        &&& after.underran(before)
        &&& is == was
        &&& holds == held
    } else if step.fatal {
        &&& r is Err
        &&& after.exchanged(before, step.used, step.reply)
        &&& !after.starved()
        &&& is == was
        &&& holds == held
    } else {
        &&& r == Ok::<bool, InvalidData>(step.finished)
        &&& after.exchanged(before, step.used, step.reply)
        &&& !after.starved()
        &&& open_file(is.0) == step.file
        &&& is.1 == step.count
        &&& is.2 == step.stream
        &&& holds =~= held + step.data
    }
}

/// Queues the ZRINIT header of this receiver. This never fails.
pub fn write_ready(port: &mut Port) -> (r: Result<(), InvalidData>)
    ensures
        r is Ok,
        final(port).wrote(*old(port), ready_header().wire()),
{
    assert(CANCRY | CANOVIO | CANFC32 == RECEIVER_CAPABILITIES) by (bit_vector);
    Header::write_zrinit(port, Encoding::ZHEX, Zrinit::from_bits(CANCRY | CANOVIO | CANFC32), 0)
}

/// Reads one subpacket of a data frame in the given encoding, appends its
/// data to `out`, counts it in `count` and answers. Returns whether the
/// frame goes on.
pub fn read_zdata(encoding: Encoding, count: &mut u32, port: &mut Port, out: &mut Vec<u8>) -> (r:
    Result<bool, InvalidData>)
    ensures
        ({
            let step = rx_on_data(None, *old(count), encoding, old(port).pending());
            if step.starved {
                &&& r is Err
                &&& final(port).took(*old(port), old(port).pending().len())
                &&& final(port).starved()
                &&& *final(count) == *old(count)
                &&& final(out)@ == old(out)@
            } else if step.fatal {
                &&& r is Err
                &&& final(port).exchanged(*old(port), step.used, step.reply)
                &&& !final(port).starved()
                &&& *final(count) == *old(count)
                &&& final(out)@ == old(out)@
            } else {
                &&& r == Ok::<bool, InvalidData>(step.stream is Some)
                &&& final(port).exchanged(*old(port), step.used, step.reply)
                &&& !final(port).starved()
                &&& *final(count) == step.count
                &&& final(out)@ == old(out)@ + step.data
            }
        }),
{
    let mut buf = rx_new();
    let ghost start = *port;
    let zcrc = match read_subpacket(port, encoding, &mut buf) {
        Ok(zcrc) => zcrc,
        Err(e) => {
            if port.is_starved() {
                return Err(e);
            }
            let ghost mid = *port;
            Header::new(Encoding::ZHEX, Frame::ZRPOS).with_count(*count).write(port)?;
            proof {
                let used = scan_subpacket(start.pending(), encoding, RX_CAPACITY as nat)->Bad_used;
                lemma_took_wrote(start, mid, *port, used, zrpos_header(*count).wire());
                assert(out@ + Seq::<u8>::empty() == out@);
            }
            return Ok(false);
        },
    };
    let ghost used = scan_subpacket(start.pending(), encoding, RX_CAPACITY as nat)->Done_used;
    let data = rx_as_slice(&buf);
    if data.len() > (u32::MAX - *count) as usize {
        proof {
            lemma_took_silent(start, *port, used);
        }
        return Err(InvalidData);
    }
    let ghost mid = *port;
    out.extend_from_slice(data);
    *count = *count + data.len() as u32;
    match zcrc {
        Packet::ZCRCW => {
            Header::new(Encoding::ZHEX, Frame::ZACK).with_count(*count).write(port)?;
            proof {
                lemma_took_wrote(start, mid, *port, used, zack_header(*count).wire());
            }
            Ok(false)
        },
        Packet::ZCRCE => {
            proof {
                lemma_took_silent(start, *port, used);
            }
            Ok(false)
        },
        Packet::ZCRCQ => {
            Header::new(Encoding::ZHEX, Frame::ZACK).with_count(*count).write(port)?;
            proof {
                lemma_took_wrote(start, mid, *port, used, zack_header(*count).wire());
            }
            Ok(true)
        },
        Packet::ZCRCG => {
            proof {
                lemma_took_silent(start, *port, used);
            }
            Ok(true)
        },
    }
}

/// Acts on a header that was read: the port stands behind the header,
/// `start` is where it stood before the step, and `mark` is the place to
/// rewind to.
fn read_header(
    frame: &Header,
    port: &mut Port,
    state: &mut (Option<File>, u32),
    stream: &mut Option<Encoding>,
    Ghost(start): Ghost<Port>,
    Ghost(used): Ghost<nat>,
    mark: usize,
) -> (r: Result<bool, InvalidData>)
    requires
        old(port).took(start, used),
        !old(port).starved(),
        mark == start.consumed().len(),
        *old(stream) is None,
    ensures
        rx_stepped(
            rx_on_header(
                open_file(old(state).0),
                old(state).1,
                *frame,
                used,
                old(port).pending(),
            ),
            start,
            *final(port),
            (old(state).0, old(state).1, *old(stream)),
            (final(state).0, final(state).1, *final(stream)),
            Seq::empty(),
            Seq::empty(),
            r,
        ),
{
    let ghost mid = *port;
    let open = state.0.is_some();
    match frame.kind() {
        Frame::ZFILE => {
            if !open || state.1 == 0 {
                match frame.read_zfile(port) {
                    Ok(file) => {
                        proof {
                            match scan_subpacket(mid.pending(), frame.encoding, RX_CAPACITY as nat) {
                                Scan::Done { value, used: more } => {
                                    lemma_exchange_chain(
                                        start,
                                        mid,
                                        *port,
                                        used,
                                        more,
                                        zrpos_header(0).wire(),
                                    );
                                },
                                Scan::Bad { used: more } => {
                                    lemma_exchange_chain(
                                        start,
                                        mid,
                                        *port,
                                        used,
                                        more,
                                        znak_header().wire(),
                                    );
                                },
                                Scan::Short => {},
                            }
                        }
                        state.0 = file;
                        Ok(false)
                    },
                    Err(e) => {
                        if port.is_starved() {
                            proof {
                                lemma_took_rest(start, mid, *port, used);
                            }
                            let ghost end = *port;
                            port.rewind(mark);
                            proof {
                                lemma_rewound(start, end, *port);
                            }
                        } else {
                            proof {
                                let more = scan_subpacket(
                                    mid.pending(),
                                    frame.encoding,
                                    RX_CAPACITY as nat,
                                )->Done_used;
                                lemma_exchange_chain(
                                    start,
                                    mid,
                                    *port,
                                    used,
                                    more,
                                    zrpos_header(0).wire(),
                                );
                            }
                        }
                        Err(e)
                    },
                }
            } else {
                proof {
                    lemma_took_silent(start, *port, used);
                }
                Ok(false)
            }
        },
        Frame::ZDATA => {
            if !open {
                write_ready(port)?;
                proof {
                    lemma_took_wrote(start, mid, *port, used, ready_header().wire());
                }
            } else if frame.count() != state.1 {
                Header::new(Encoding::ZHEX, Frame::ZRPOS).with_count(state.1).write(port)?;
                proof {
                    lemma_took_wrote(start, mid, *port, used, zrpos_header(state.1).wire());
                }
            } else {
                *stream = Some(frame.encoding());
                proof {
                    lemma_took_silent(start, *port, used);
                }
            }
            Ok(false)
        },
        Frame::ZEOF => {
            if !open || frame.count() == state.1 {
                write_ready(port)?;
                proof {
                    lemma_took_wrote(start, mid, *port, used, ready_header().wire());
                }
            } else {
                proof {
                    lemma_took_silent(start, *port, used);
                }
            }
            Ok(false)
        },
        Frame::ZFIN => {
            if !open {
                write_ready(port)?;
                proof {
                    lemma_took_wrote(start, mid, *port, used, ready_header().wire());
                }
                Ok(false)
            } else {
                Header::new(Encoding::ZHEX, Frame::ZFIN).write(port)?;
                proof {
                    lemma_took_wrote(start, mid, *port, used, zfin_header().wire());
                }
                Ok(true)
            }
        },
        _ => {
            if !open {
                write_ready(port)?;
                proof {
                    lemma_took_wrote(start, mid, *port, used, ready_header().wire());
                }
            } else {
                proof {
                    lemma_took_silent(start, *port, used);
                }
            }
            Ok(false)
        },
    }
}

/// The first act of the receiver: where no file is open, it sends ZRINIT.
/// This never fails.
pub fn read_start(port: &mut Port, state: &(Option<File>, u32)) -> (r: Result<(), InvalidData>)
    ensures
        r is Ok,
        final(port).wrote(
            *old(port),
            if state.0 is None {
                ready_header().wire()
            } else {
                Seq::empty()
            },
        ),
{
    if state.0.is_none() {
        write_ready(port)
    } else {
        assert(port.sent() + Seq::<u8>::empty() == port.sent());
        Ok(())
    }
}

/// One step of the receiver: it reads one header, or one subpacket of the
/// data frame `stream`, acts on it, appends the data that it read to
/// `out`, and tells whether the session is over. Where the pending bytes
/// do not hold the whole of what the step reads, it fails and leaves a
/// starved port and everything else as it was: the step can be taken
/// again when more bytes have come in.
pub fn read_step(
    port: &mut Port,
    state: &mut (Option<File>, u32),
    stream: &mut Option<Encoding>,
    out: &mut Vec<u8>,
) -> (r: Result<bool, InvalidData>)
    ensures
        rx_stepped(
            rx_step(open_file(old(state).0), old(state).1, *old(stream), old(port).pending()),
            *old(port),
            *final(port),
            (old(state).0, old(state).1, *old(stream)),
            (final(state).0, final(state).1, *final(stream)),
            old(out)@,
            final(out)@,
            r,
        ),
{
    assert(out@ + Seq::<u8>::empty() == out@);
    proof {
        reveal(rx_step);
    }
    let mark = port.mark();
    let ghost start = *port;
    match *stream {
        Some(encoding) => {
            let mut count = state.1;
            match read_zdata(encoding, &mut count, port, out) {
                Ok(more) => {
                    state.1 = count;
                    if !more {
                        *stream = None;
                    }
                    Ok(false)
                },
                Err(e) => {
                    if port.is_starved() {
                        let ghost end = *port;
                        port.rewind(mark);
                        proof {
                            lemma_rewound(start, end, *port);
                        }
                    }
                    Err(e)
                },
            }
        },
        None => {
            match read_zpad(port) {
                Ok(()) => {},
                Err(e) => {
                    if port.is_starved() {
                        let ghost end = *port;
                        port.rewind(mark);
                        proof {
                            lemma_rewound(start, end, *port);
                        }
                        return Err(e);
                    }
                    proof {
                        lemma_took_silent(start, *port, scan_zpad(start.pending())->Bad_used);
                    }
                    return Ok(false);
                },
            }
            let ghost lead = scan_zpad(start.pending())->Done_used;
            let ghost mid = *port;
            let frame = match Header::read(port) {
                Ok(frame) => frame,
                Err(e) => {
                    if port.is_starved() {
                        proof {
                            lemma_took_rest(start, mid, *port, lead);
                        }
                        let ghost end = *port;
                        port.rewind(mark);
                        proof {
                            lemma_rewound(start, end, *port);
                        }
                        return Err(e);
                    }
                    let ghost more = scan_header(mid.pending())->Bad_used;
                    proof {
                        lemma_took_chain(start, mid, *port, lead, more);
                    }
                    let ghost behind = *port;
                    Header::new(Encoding::ZHEX, Frame::ZNAK).write(port)?;
                    proof {
                        lemma_took_wrote(start, behind, *port, lead + more, znak_header().wire());
                    }
                    return Ok(false);
                },
            };
            proof {
                let more = scan_header(mid.pending())->Done_used;
                lemma_took_chain(start, mid, *port, lead, more);
            }
            read_header(
                &frame,
                port,
                state,
                stream,
                Ghost(start),
                Ghost(lead + scan_header(mid.pending())->Done_used),
                mark,
            )
        },
    }
}

/// What a run of the receiver comes to.
pub struct RxRun {
    /// The run came to the end of the session.
    pub finished: bool,
    /// How many pending bytes it read.
    pub used: nat,
    /// What it answered.
    pub reply: Seq<u8>,
    /// The data of the file that it read, in order.
    pub data: Seq<u8>,
    /// The descriptor bytes of the file that is open after it.
    pub file: Option<Seq<u8>>,
    /// The number of bytes received after it.
    pub count: u32,
}

/// The run of the receiver on the pending bytes `p`: one step after the
/// other, until the session is over or a step fails. A step that finds too
/// few bytes reads none and answers nothing; a fatal step fails behind
/// what it read and answered.
#[verifier::opaque]
pub open spec fn rx_run(
    file: Option<Seq<u8>>,
    count: u32,
    stream: Option<Encoding>,
    p: Seq<u8>,
) -> RxRun
    decreases p.len(),
{
    let step = rx_step(file, count, stream, p);
    if step.starved || step.used == 0 || step.used > p.len() {
        RxRun {
            finished: false,
            used: 0,
            reply: Seq::empty(),
            data: Seq::empty(),
            file,
            count,
        }
    } else if step.fatal {
        RxRun {
            finished: false,
            used: step.used,
            reply: step.reply,
            data: Seq::empty(),
            file,
            count,
        }
    } else if step.finished {
        RxRun {
            finished: true,
            used: step.used,
            reply: step.reply,
            data: step.data,
            file: step.file,
            count: step.count,
        }
    } else {
        let rest = rx_run(step.file, step.count, step.stream, p.skip(step.used as int));
        RxRun {
            finished: rest.finished,
            used: step.used + rest.used,
            reply: step.reply + rest.reply,
            data: step.data + rest.data,
            file: rest.file,
            count: rest.count,
        }
    }
}

/// The run of the receiver as far as a sink takes data that takes `room`
/// bytes more: the steps of the run, up to the first whose data is more
/// than the sink still takes. That step is not taken, nor any behind it.
#[verifier::opaque]
pub open spec fn rx_run_within(
    file: Option<Seq<u8>>,
    count: u32,
    stream: Option<Encoding>,
    p: Seq<u8>,
    room: nat,
) -> RxRun
    decreases p.len(),
{
    let step = rx_step(file, count, stream, p);
    if step.starved || step.used == 0 || step.used > p.len() || step.data.len() > room {
        RxRun {
            finished: false,
            used: 0,
            reply: Seq::empty(),
            data: Seq::empty(),
            file,
            count,
        }
    } else if step.fatal {
        RxRun {
            finished: false,
            used: step.used,
            reply: step.reply,
            data: Seq::empty(),
            file,
            count,
        }
    } else if step.finished {
        RxRun {
            finished: true,
            used: step.used,
            reply: step.reply,
            data: step.data,
            file: step.file,
            count: step.count,
        }
    } else {
        let rest = rx_run_within(
            step.file,
            step.count,
            step.stream,
            p.skip(step.used as int),
            (room - step.data.len()) as nat,
        );
        RxRun {
            finished: rest.finished,
            used: step.used + rest.used,
            reply: step.reply + rest.reply,
            data: step.data + rest.data,
            file: rest.file,
            count: rest.count,
        }
    }
}

/// A run as far as the sink takes data is its first step and, where that
/// neither ends the session nor fails, the run behind it, as far as the
/// sink takes data then.
pub proof fn lemma_rx_run_within_unfold(
    file: Option<Seq<u8>>,
    count: u32,
    stream: Option<Encoding>,
    p: Seq<u8>,
    room: nat,
)
    ensures
        ({
            let step = rx_step(file, count, stream, p);
            let run = rx_run_within(file, count, stream, p, room);
            let rest = rx_run_within(
                step.file,
                step.count,
                step.stream,
                p.skip(step.used as int),
                (room - step.data.len()) as nat,
            );
            if step.starved || step.used == 0 || step.used > p.len() || step.data.len() > room {
                &&& !run.finished
                &&& run.used == 0
                &&& run.reply == Seq::<u8>::empty()
                &&& run.data == Seq::<u8>::empty()
                &&& run.file == file
                &&& run.count == count
            } else if step.fatal {
                &&& !run.finished
                &&& run.used == step.used
                &&& run.reply == step.reply
                &&& run.data == Seq::<u8>::empty()
                &&& run.file == file
                &&& run.count == count
            } else if step.finished {
                &&& run.finished
                &&& run.used == step.used
                &&& run.reply == step.reply
                &&& run.data == step.data
                &&& run.file == step.file
                &&& run.count == step.count
            } else {
                &&& run.finished == rest.finished
                &&& run.used == step.used + rest.used
                &&& run.reply == step.reply + rest.reply
                &&& run.data == step.data + rest.data
                &&& run.file == rest.file
                &&& run.count == rest.count
            }
        }),
{
    reveal(rx_run_within);
}

/// What a run as far as the sink takes data came to, as the fields of a
/// run that read `used` bytes, answered `reply` and read `data`, and goes
/// on as `rest` does.
pub open spec fn rx_goes_on(run: RxRun, used: nat, reply: Seq<u8>, data: Seq<u8>, rest: RxRun) -> bool {
    &&& run.finished == rest.finished
    &&& run.used == used + rest.used
    &&& run.reply =~= reply + rest.reply
    &&& run.data =~= data + rest.data
    &&& run.file == rest.file
    &&& run.count == rest.count
}

/// A step outside a data frame that reads the opening sequence and a
/// header acts on that header.
pub proof fn lemma_rx_step_on(
    file: Option<Seq<u8>>,
    count: u32,
    p: Seq<u8>,
    lead: nat,
    h: Header,
    used: nat,
)
    requires
        scan_zpad(p) == (Scan::Done { value: (), used: lead }),
        scan_header(p.skip(lead as int)) == (Scan::Done { value: h, used }),
    ensures
        rx_step(file, count, None, p) == rx_on_header(
            file,
            count,
            h,
            lead + used,
            p.skip((lead + used) as int),
        ),
{
    reveal(rx_step);
}

/// A run is its first step and, where that neither ends the session nor
/// fails, the run behind it.
pub proof fn lemma_rx_run_unfold(
    file: Option<Seq<u8>>,
    count: u32,
    stream: Option<Encoding>,
    p: Seq<u8>,
)
    ensures
        ({
            let step = rx_step(file, count, stream, p);
            let run = rx_run(file, count, stream, p);
            let rest = rx_run(step.file, step.count, step.stream, p.skip(step.used as int));
            if step.starved || step.used == 0 || step.used > p.len() {
                &&& !run.finished
                &&& run.used == 0
                &&& run.reply == Seq::<u8>::empty()
                &&& run.data == Seq::<u8>::empty()
                &&& run.file == file
                &&& run.count == count
            } else if step.fatal {
                &&& !run.finished
                &&& run.used == step.used
                &&& run.reply == step.reply
                &&& run.data == Seq::<u8>::empty()
                &&& run.file == file
                &&& run.count == count
            } else if step.finished {
                &&& run.finished
                &&& run.used == step.used
                &&& run.reply == step.reply
                &&& run.data == step.data
                &&& run.file == step.file
                &&& run.count == step.count
            } else {
                &&& run.finished == rest.finished
                &&& run.used == step.used + rest.used
                &&& run.reply == step.reply + rest.reply
                &&& run.data == step.data + rest.data
                &&& run.file == rest.file
                &&& run.count == rest.count
            }
        }),
{
    reveal(rx_run);
}

/// Whether a state of the receiver can come about: without a file no
/// byte was received and no data frame is read.
pub open spec fn rx_sound(file: Option<Seq<u8>>, count: u32, stream: Option<Encoding>) -> bool {
    file is None ==> count == 0 && stream is None
}

/// A step that finds enough bytes reads at least one of them and no more
/// than there are; it raises the number of bytes received by the number
/// of bytes of data that it read; it reads no data where it fails, and
/// keeps the file where it reads data; and it leaves a state that can come
/// about where it found one.
pub proof fn lemma_rx_step(file: Option<Seq<u8>>, count: u32, stream: Option<Encoding>, p: Seq<u8>)
    ensures
        ({
            let step = rx_step(file, count, stream, p);
            &&& !step.starved ==> 1 <= step.used <= p.len()
            &&& step.count == count + step.data.len()
            &&& step.starved || step.fatal ==> step.data.len() == 0
            &&& step.data.len() > 0 ==> step.file == file
            &&& rx_sound(file, count, stream) ==> rx_sound(step.file, step.count, step.stream)
        }),
{
    reveal(rx_step);
    match stream {
        Some(encoding) => {
            lemma_scan_subpacket_used(p, encoding, RX_CAPACITY as nat);
        },
        None => {
            match scan_zpad(p) {
                Scan::Done { value, used } => {
                    let q = p.skip(used as int);
                    match scan_header(q) {
                        Scan::Done { value: h, used: more } => {
                            lemma_scan_header_used(q);
                            lemma_scan_subpacket_used(
                                p.skip((used + more) as int),
                                h.encoding,
                                RX_CAPACITY as nat,
                            );
                        },
                        Scan::Bad { used: more } => {
                            lemma_scan_header_used(q);
                        },
                        Scan::Short => {},
                    }
                },
                _ => {},
            }
        },
    }
}

/// Receives a file from the start of a session, and returns how many
/// bytes of it there were. It succeeds and fails as `read` does on a
/// state without a file; a sink that keeps account has taken the data of
/// the run where it succeeds, and has lost nothing where it fails.
pub fn recv<F: Writer>(port: &mut Port, out: &mut F) -> (r: Result<usize, InvalidData>)
    ensures
        ({
            let run = rx_run(None, 0, None, old(port).pending());
            &&& !run.finished ==> r is Err
            &&& run.finished && run.data.len() == 0 ==> r is Ok
            &&& r matches Ok(n) ==> {
                &&& n == run.count
                &&& final(port).exchanged(*old(port), run.used, ready_header().wire() + run.reply)
                &&& F::keeps_account() ==> final(out).taken() == old(out).taken() + run.data
            }
            &&& final(port).began_with(*old(port), ready_header().wire())
            &&& F::keeps_account() ==> final(out).taken().len() >= old(out).taken().len()
        }),
{
    let mut state: (Option<File>, u32) = (None, 0);
    crate::read(port, &mut state, out)?;
    Ok(state.1 as usize)
}

/// A header that was acted on is acted on alike when more bytes come in
/// behind it, where the step did not find too few bytes.
pub proof fn lemma_rx_on_header_stable(
    file: Option<Seq<u8>>,
    count: u32,
    h: Header,
    used: nat,
    behind: Seq<u8>,
    more: Seq<u8>,
)
    requires
        !rx_on_header(file, count, h, used, behind).starved,
    ensures
        rx_on_header(file, count, h, used, behind + more) == rx_on_header(
            file,
            count,
            h,
            used,
            behind,
        ),
{
    if h.kind == Frame::ZFILE && (file is None || count == 0) {
        lemma_scan_subpacket_stable(behind, h.encoding, RX_CAPACITY as nat, more);
    }
}

/// A subpacket of a data frame that was acted on is acted on alike when
/// more bytes come in behind it, where the step did not find too few
/// bytes.
pub proof fn lemma_rx_on_data_stable(
    file: Option<Seq<u8>>,
    count: u32,
    encoding: Encoding,
    p: Seq<u8>,
    more: Seq<u8>,
)
    requires
        !rx_on_data(file, count, encoding, p).starved,
    ensures
        rx_on_data(file, count, encoding, p + more) == rx_on_data(file, count, encoding, p),
{
    lemma_scan_subpacket_stable(p, encoding, RX_CAPACITY as nat, more);
}

/// What a step came to does not change when more bytes come in: a step
/// that did not find too few bytes is the same, whatever follows the bytes
/// that it read. So a receiver may take each step as soon as the bytes for
/// it are there.
pub proof fn lemma_rx_step_stable(
    file: Option<Seq<u8>>,
    count: u32,
    stream: Option<Encoding>,
    p: Seq<u8>,
    more: Seq<u8>,
)
    requires
        !rx_step(file, count, stream, p).starved,
    ensures
        rx_step(file, count, stream, p + more) == rx_step(file, count, stream, p),
{
    reveal(rx_step);
    match stream {
        Some(encoding) => {
            lemma_rx_on_data_stable(file, count, encoding, p, more);
        },
        None => {
            lemma_scan_zpad_stable(p, more);
            match scan_zpad(p) {
                Scan::Done { value, used } => {
                    let q = p.skip(used as int);
                    assert((p + more).skip(used as int) =~= q + more);
                    lemma_scan_header_stable(q, more);
                    match scan_header(q) {
                        Scan::Done { value: h, used: further } => {
                            let behind = p.skip((used + further) as int);
                            lemma_scan_header_used(q);
                            assert((p + more).skip((used + further) as int) =~= behind + more);
                            lemma_rx_on_header_stable(
                                file,
                                count,
                                h,
                                used + further,
                                behind,
                                more,
                            );
                        },
                        _ => {},
                    }
                },
                _ => {},
            }
        },
    }
}

/// The number of bytes received counts the data: a step, and so a run,
/// raises it by the number of bytes of data that it read, and never lowers
/// it.
pub proof fn lemma_count_never_falls(
    file: Option<Seq<u8>>,
    count: u32,
    stream: Option<Encoding>,
    p: Seq<u8>,
)
    ensures
        rx_step(file, count, stream, p).count == count + rx_step(file, count, stream, p).data.len(),
        rx_run(file, count, stream, p).count == count + rx_run(file, count, stream, p).data.len(),
        rx_step(file, count, stream, p).count >= count,
        rx_run(file, count, stream, p).count >= count,
    decreases p.len(),
{
    lemma_rx_step(file, count, stream, p);
    lemma_rx_run_unfold(file, count, stream, p);
    let step = rx_step(file, count, stream, p);
    if step.starved || step.fatal || step.used == 0 || step.used > p.len() {
    } else if step.finished {
    } else {
        lemma_count_never_falls(step.file, step.count, step.stream, p.skip(step.used as int));
    }
}

} // verus!
