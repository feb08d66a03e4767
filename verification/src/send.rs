//! The sending endpoint: it asks for a receiver, names the file, and sends
//! the data from wherever the receiver asks for it.

use vstd::prelude::*;
use vstd::string::StringSliceAdditionalSpecFns;
use vstd::slice::{slice_subrange, slice_to_vec};
use crate::agree::{joined, lemma_joined_last};
use crate::crc::le32;
use crate::file::{zfile_payload, zfile_wire, znak_header};
use crate::frame::{
    header_with, lemma_scan_header_stable, lemma_scan_header_used, scan_header, Header,
};
use crate::port::{
    lemma_exchange_chain, lemma_rewound, lemma_scan_zpad_stable, lemma_took_chain, lemma_took_rest, lemma_took_silent, lemma_took_wrote,
    read_zpad, scan_zpad, Port, Scan,
};
use crate::recv::zfin_header;
use crate::subpacket::{subpacket_wire, write_subpacket, SUBPACKET_SIZE};
use crate::tags::{Encoding, Frame, Packet};
use crate::InvalidData;

verus! {

/// How many bytes of a file of `len` bytes stand at `at` and behind it.
pub open spec fn left_at(len: nat, at: nat) -> nat {
    if at <= len {
        (len - at) as nat
    } else {
        0
    }
}

/// The `n` bytes of a file from `at` on; none where the file has not as
/// many.
pub open spec fn bytes_at(contents: Seq<u8>, at: nat, n: nat) -> Seq<u8> {
    if at + n <= contents.len() {
        contents.subrange(at as int, (at + n) as int)
    } else {
        Seq::empty()
    }
}

/// Where the data of the file comes from. Sizes and offsets are counts of
/// 32 bits.
///
/// A source may keep account of the file that it holds: it then says so
/// in `keeps_account`, gives the bytes of the file in `contents` and where
/// it stands in `position`, and its `read` and `seek` are held to them. A
/// source that does not say so promises nothing.
pub trait Reader {
    /// Whether the source keeps account of its file, as `contents` and
    /// `position` have it.
    open spec fn keeps_account() -> bool {
        false
    }

    /// The bytes of the file, where the source keeps account.
    open spec fn contents(&self) -> Seq<u8> {
        Seq::empty()
    }

    /// How many bytes from the start the source stands, where it keeps
    /// account.
    open spec fn position(&self) -> nat {
        0
    }

    /// Reads bytes at the current position into `buf` and returns how many:
    /// no more than `buf` holds, and no more than the file has from there.
    fn read(&mut self, buf: &mut [u8]) -> (r: Result<u32, InvalidData>)
        ensures
            Self::keeps_account() ==> final(self).contents() == old(self).contents(),
            Self::keeps_account() ==> (r matches Ok(n) ==> {
                &&& n <= old(buf)@.len()
                &&& n <= final(buf)@.len()
                &&& n <= left_at(old(self).contents().len(), old(self).position())
                &&& final(buf)@.take(n as int) == bytes_at(
                    old(self).contents(),
                    old(self).position(),
                    n as nat,
                )
                &&& final(self).position() == old(self).position() + n
            }),
    ;

    /// Moves the current position to `offset` bytes from the start.
    fn seek(&mut self, offset: u32) -> (r: Result<u32, InvalidData>)
        ensures
            Self::keeps_account() ==> final(self).contents() == old(self).contents(),
            Self::keeps_account() && r is Ok ==> final(self).position() == offset,
    ;
}

/// A file held in memory: a source that keeps account of its file.
pub struct Memory {
    /// The bytes of the file.
    pub data: Vec<u8>,
    /// How many bytes from the start the source stands.
    pub at: usize,
}

impl Memory {
    /// A source that holds `data` and stands at its start.
    pub fn new(data: Vec<u8>) -> (m: Memory)
        ensures
            m.data == data,
            m.at == 0,
    {
        Memory { data, at: 0 }
    }
}

impl Reader for Memory {
    open spec fn keeps_account() -> bool {
        true
    }

    open spec fn contents(&self) -> Seq<u8> {
        self.data@
    }

    open spec fn position(&self) -> nat {
        self.at as nat
    }

    /// Reads as many bytes as `buf` holds and the file has from the
    /// current position on, and never fails.
    fn read(&mut self, buf: &mut [u8]) -> (r: Result<u32, InvalidData>)
        ensures
            r is Ok,
    {
        let len = self.data.len();
        let start = if self.at <= len {
            self.at
        } else {
            len
        };
        let left = len - start;
        let mut n = if left < buf.len() {
            left
        } else {
            buf.len()
        };
        if n > 0x7fff_ffff {
            n = 0x7fff_ffff;
        }
        let mut i: usize = 0;
        while i < n
            invariant
                i <= n,
                n <= buf@.len(),
                buf@.len() == old(buf)@.len(),
                start + n <= len,
                len == self.data.len(),
                self.data == old(self).data,
                forall|j: int| 0 <= j < i ==> buf@[j] == self.data@[start + j],
            decreases n - i,
        {
            buf[i] = self.data[start + i];
            i = i + 1;
        }
        if n > 0 {
            self.at = start + n;
        }
        proof {
            if n > 0 {
                assert(buf@.take(n as int) =~= self.data@.subrange(
                    start as int,
                    (start + n) as int,
                ));
            } else {
                assert(buf@.take(0) =~= Seq::<u8>::empty());
                assert(self.data@.subrange(start as int, start as int) =~= Seq::<u8>::empty());
            }
        }
        Ok(n as u32)
    }

    /// Moves to `offset` bytes from the start, and never fails.
    fn seek(&mut self, offset: u32) -> (r: Result<u32, InvalidData>)
        ensures
            r == Ok::<u32, InvalidData>(offset),
    {
        self.at = offset as usize;
        Ok(offset)
    }
}

/// How many subpackets are sent before the sender waits for ZACK.
pub const SUBPACKET_PER_ACK: usize = 10;

/// How far the sender has come.
#[derive(Clone, Copy, Debug, PartialEq, Eq, Structural)]
pub enum Stage {
    /// It waits for a receiver.
    Waiting,
    /// It has named the file.
    Ready,
    /// It has sent data.
    Receiving,
}

/// The size that is sent for a file: zero where none is given.
pub open spec fn size_sent(size: Option<u32>) -> u32 {
    match size {
        Some(size) => size,
        None => 0,
    }
}

/// The ZRQINIT header, in hex.
pub open spec fn zrqinit_header() -> Header {
    header_with(Encoding::ZHEX, Frame::ZRQINIT, seq![0u8, 0u8, 0u8, 0u8])
}

/// The header, in ZBIN32, of the given kind for the file offset `offset`.
pub open spec fn data_header(kind: Frame, offset: u32) -> Header {
    header_with(Encoding::ZBIN32, kind, le32(offset))
}

/// The two bytes that end a session.
pub open spec fn over_and_out() -> Seq<u8> {
    seq![0x4fu8, 0x4fu8]
}

/// One ZCRCG subpacket, in ZBIN32, for each of `chunks`.
pub open spec fn streamed(chunks: Seq<Seq<u8>>) -> Seq<u8>
    decreases chunks.len(),
{
    if chunks.len() == 0 {
        Seq::empty()
    } else {
        streamed(chunks.drop_last()) + subpacket_wire(
            Encoding::ZBIN32,
            Packet::ZCRCG,
            chunks.last(),
        )
    }
}

/// Whether `chunks` can be what one run of the data pump reads from the
/// file. No chunk has more than `SUBPACKET_SIZE` bytes. A first chunk
/// that is empty is the only one. Otherwise there are from two to ten
/// chunks, all between the first and the last are full, and a last chunk
/// that is full is the tenth.
pub open spec fn is_pump(chunks: Seq<Seq<u8>>) -> bool {
    &&& 1 <= chunks.len() <= SUBPACKET_PER_ACK
    &&& forall|i: int| 0 <= i < chunks.len() ==> (#[trigger] chunks[i]).len() <= SUBPACKET_SIZE
    &&& chunks[0].len() == 0 <==> chunks.len() == 1
    &&& forall|i: int| 1 <= i < chunks.len() - 1 ==> (#[trigger] chunks[i]).len() == SUBPACKET_SIZE
    &&& chunks.len() > 1 && chunks.last().len() == SUBPACKET_SIZE ==> chunks.len()
        == SUBPACKET_PER_ACK
}

/// What the data pump sends for the chunks that it read at `offset`. An
/// empty first chunk is the end of the file: ZEOF with the offset.
/// Otherwise ZDATA with the offset, one ZCRCG subpacket for each chunk but
/// the last, and a ZCRCW subpacket for the last.
pub open spec fn pump_wire(offset: u32, chunks: Seq<Seq<u8>>) -> Seq<u8> {
    if chunks.len() <= 1 {
        data_header(Frame::ZEOF, offset).wire()
    } else {
        data_header(Frame::ZDATA, offset).wire() + streamed(chunks.drop_last()) + subpacket_wire(
            Encoding::ZBIN32,
            Packet::ZCRCW,
            chunks.last(),
        )
    }
}

/// Whether `after` is `before` after `used` more pending bytes were read
/// and the data pump sent what it sends at `offset`, for some chunks that
/// it can have read.
#[verifier::opaque]
pub open spec fn pumped(before: Port, after: Port, used: nat, offset: u32) -> bool {
    exists|chunks: Seq<Seq<u8>>|
        is_pump(chunks) && after.exchanged(before, used, #[trigger] pump_wire(offset, chunks))
}

/// Whether `after` is `before` after `used` more pending bytes were read
/// and the data pump sent, for some chunks that it can have read, what it
/// sends at `offset`, and the chunks are the bytes of the file `contents`
/// from `offset` on.
#[verifier::opaque]
pub open spec fn pumped_from(
    before: Port,
    after: Port,
    used: nat,
    offset: u32,
    contents: Seq<u8>,
) -> bool {
    exists|chunks: Seq<Seq<u8>>|
        is_pump(chunks) && after.exchanged(before, used, #[trigger] pump_wire(offset, chunks))
            && joined(chunks).len() <= left_at(contents.len(), offset as nat) && joined(chunks)
            == bytes_at(contents, offset as nat, joined(chunks).len())
}

/// The data pump behind a read is a read and the data pump, with the same
/// bytes of the file.
pub proof fn lemma_pumped_from_behind(
    a: Port,
    b: Port,
    c: Port,
    used: nat,
    offset: u32,
    contents: Seq<u8>,
)
    requires
        b.took(a, used),
        pumped_from(b, c, 0, offset, contents),
    ensures
        pumped_from(a, c, used, offset, contents),
{
    reveal(pumped_from);
    let chunks = choose|chunks: Seq<Seq<u8>>|
        is_pump(chunks) && c.exchanged(b, 0, #[trigger] pump_wire(offset, chunks)) && joined(
            chunks,
        ).len() <= left_at(contents.len(), offset as nat) && joined(chunks) == bytes_at(
            contents,
            offset as nat,
            joined(chunks).len(),
        );
    lemma_exchange_chain(a, b, c, used, 0, pump_wire(offset, chunks));
    assert(is_pump(chunks) && c.exchanged(a, used, pump_wire(offset, chunks)));
}

/// What the data pump sent for `chunks`, which are bytes of the file, it
/// sent for some chunks that are.
pub proof fn lemma_pumped_from(
    a: Port,
    b: Port,
    offset: u32,
    chunks: Seq<Seq<u8>>,
    contents: Seq<u8>,
)
    requires
        is_pump(chunks),
        b.wrote(a, pump_wire(offset, chunks)),
        joined(chunks).len() <= left_at(contents.len(), offset as nat),
        joined(chunks) == bytes_at(contents, offset as nat, joined(chunks).len()),
    ensures
        pumped_from(a, b, 0, offset, contents),
{
    reveal(pumped_from);
    let p = a.pending();
    assert(p.take(0) == Seq::<u8>::empty());
    assert(p.skip(0) == p);
    assert(a.consumed() + Seq::<u8>::empty() == a.consumed());
    assert(is_pump(chunks) && b.exchanged(a, 0, pump_wire(offset, chunks)));
}

/// Chunks that are the bytes of a file from `offset` on, and one more chunk
/// that is the bytes behind them, are the bytes of the file from `offset`
/// on.
pub proof fn lemma_chunk_joins(contents: Seq<u8>, offset: nat, chunks: Seq<Seq<u8>>, chunk: Seq<u8>)
    requires
        joined(chunks).len() <= left_at(contents.len(), offset),
        joined(chunks) == bytes_at(contents, offset, joined(chunks).len()),
        chunk.len() <= left_at(contents.len(), offset + joined(chunks).len()),
        chunk == bytes_at(contents, offset + joined(chunks).len(), chunk.len()),
    ensures
        joined(chunks.push(chunk)) == joined(chunks) + chunk,
        joined(chunks.push(chunk)).len() <= left_at(contents.len(), offset),
        joined(chunks.push(chunk)) == bytes_at(
            contents,
            offset,
            joined(chunks.push(chunk)).len(),
        ),
{
    let longer = chunks.push(chunk);
    lemma_joined_last(longer);
    assert(longer.drop_last() =~= chunks);
    let had = joined(chunks);
    if offset + had.len() + chunk.len() <= contents.len() {
        assert(had + chunk =~= contents.subrange(
            offset as int,
            (offset + had.len() + chunk.len()) as int,
        ));
    } else {
        assert(chunk.len() == 0);
        assert(had + chunk =~= had);
    }
}

/// The data pump behind a read is a read and the data pump.
pub proof fn lemma_pumped_behind(a: Port, b: Port, c: Port, used: nat, offset: u32)
    requires
        b.took(a, used),
        pumped(b, c, 0, offset),
    ensures
        pumped(a, c, used, offset),
{
    reveal(pumped);
    let chunks = choose|chunks: Seq<Seq<u8>>|
        is_pump(chunks) && c.exchanged(b, 0, #[trigger] pump_wire(offset, chunks));
    lemma_exchange_chain(a, b, c, used, 0, pump_wire(offset, chunks));
    assert(is_pump(chunks) && c.exchanged(a, used, pump_wire(offset, chunks)));
}

/// What the data pump sent for `chunks`, it sent for some chunks.
pub proof fn lemma_pumped(a: Port, b: Port, offset: u32, chunks: Seq<Seq<u8>>)
    requires
        is_pump(chunks),
        b.wrote(a, pump_wire(offset, chunks)),
    ensures
        pumped(a, b, 0, offset),
{
    reveal(pumped);
    let p = a.pending();
    assert(p.take(0) == Seq::<u8>::empty());
    assert(p.skip(0) == p);
    assert(a.consumed() + Seq::<u8>::empty() == a.consumed());
    assert(is_pump(chunks) && b.exchanged(a, 0, pump_wire(offset, chunks)));
}

/// The chunks as bytes, one sequence for each.
pub open spec fn chunk_views(chunks: Seq<Vec<u8>>) -> Seq<Seq<u8>> {
    Seq::new(chunks.len(), |i: int| chunks[i]@)
}

/// The length of the chunk that a read left in a buffer of `room` bytes,
/// where the source says that it read `count` bytes: `count`, where the
/// buffer holds as many; an error where the source claims more than that.
pub fn chunk_len(count: u32, room: usize) -> (r: Result<usize, InvalidData>)
    ensures
        count <= room ==> r == Ok::<usize, InvalidData>(count as usize),
        count > room ==> r is Err,
{
    if count as usize > room {
        return Err(InvalidData);
    }
    Ok(count as usize)
}

/// Whether `chunks` can be what one run of the data pump reads from the
/// file.
pub fn is_window(chunks: &Vec<Vec<u8>>) -> (b: bool)
    ensures
        b == is_pump(chunk_views(chunks@)),
{
    let ghost views = chunk_views(chunks@);
    let n = chunks.len();
    if n < 1 || n > SUBPACKET_PER_ACK {
        return false;
    }
    assert(views[0] == chunks@[0]@);
    assert(views.last() == chunks@[n - 1]@);
    if (chunks[0].len() == 0) != (n == 1) {
        return false;
    }
    if n > 1 && n < SUBPACKET_PER_ACK && chunks[n - 1].len() == SUBPACKET_SIZE {
        return false;
    }
    let mut i: usize = 0;
    while i < n
        invariant
            i <= n,
            n == chunks.len(),
            views == chunk_views(chunks@),
            forall|j: int| 0 <= j < i ==> (#[trigger] views[j]).len() <= SUBPACKET_SIZE,
            forall|j: int| 1 <= j < i && j < n - 1 ==> (#[trigger] views[j]).len() == SUBPACKET_SIZE,
        decreases n - i,
    {
        let len = chunks[i].len();
        assert(views[i as int] == chunks@[i as int]@);
        if len > SUBPACKET_SIZE {
            return false;
        }
        if 1 <= i && i + 1 < n && len != SUBPACKET_SIZE {
            return false;
        }
        i = i + 1;
    }
    true
}

/// Queues what one run of the data pump sends at `offset` for the chunks
/// that it read: ZEOF where the first chunk is empty; else ZDATA, a ZCRCG
/// subpacket for each chunk but the last, and a ZCRCW subpacket for the
/// last. Chunks that no run of the data pump can have read are refused,
/// and nothing is queued.
pub fn write_window(port: &mut Port, offset: u32, chunks: &Vec<Vec<u8>>) -> (r: Result<
    (),
    InvalidData,
>)
    ensures
        is_pump(chunk_views(chunks@)) ==> r is Ok && final(port).wrote(
            *old(port),
            pump_wire(offset, chunk_views(chunks@)),
        ),
        !is_pump(chunk_views(chunks@)) ==> r is Err && *final(port) == *old(port),
{
    if !is_window(chunks) {
        return Err(InvalidData);
    }
    let ghost views = chunk_views(chunks@);
    if chunks.len() == 1 {
        return Header::new(Encoding::ZBIN32, Frame::ZEOF).with_count(offset).write(port);
    }
    let last = chunks.len() - 1;
    Header::new(Encoding::ZBIN32, Frame::ZDATA).with_count(offset).write(port)?;
    proof {
        assert(views.take(0) =~= Seq::<Seq<u8>>::empty());
        assert(port.sent() =~= old(port).sent() + (data_header(Frame::ZDATA, offset).wire()
            + streamed(views.take(0))));
    }
    let mut i: usize = 0;
    while i < last
        invariant
            i <= last,
            last == chunks.len() - 1,
            views == chunk_views(chunks@),
            port.wrote(
                *old(port),
                data_header(Frame::ZDATA, offset).wire() + streamed(views.take(i as int)),
            ),
        decreases last - i,
    {
        let ghost before = *port;
        write_subpacket(port, Encoding::ZBIN32, Packet::ZCRCG, chunks[i].as_slice())?;
        proof {
            let longer = views.take(i + 1);
            assert(longer.drop_last() =~= views.take(i as int));
            assert(longer.last() == chunks@[i as int]@);
            assert(port.sent() =~= old(port).sent() + (data_header(Frame::ZDATA, offset).wire()
                + streamed(longer)));
        }
        i = i + 1;
    }
    write_subpacket(port, Encoding::ZBIN32, Packet::ZCRCW, chunks[last].as_slice())?;
    proof {
        assert(views.take(last as int) =~= views.drop_last());
        assert(views.last() == chunks@[last as int]@);
        assert(port.sent() =~= old(port).sent() + pump_wire(offset, views));
    }
    Ok(())
}

/// Reads the next chunk of the file: at most `SUBPACKET_SIZE` bytes.
/// Fails where the source fails, and where it claims to have read more
/// than the buffer holds.
fn read_chunk<F: Reader>(file: &mut F, data: &mut [u8; 1024]) -> (r: Result<usize, InvalidData>)
    ensures
        r matches Ok(n) ==> n <= SUBPACKET_SIZE,
        F::keeps_account() ==> final(file).contents() == old(file).contents(),
        F::keeps_account() ==> (r matches Ok(n) ==> {
            &&& n <= left_at(old(file).contents().len(), old(file).position())
            &&& final(data)@.take(n as int) == bytes_at(
                old(file).contents(),
                old(file).position(),
                n as nat,
            )
            &&& final(file).position() == old(file).position() + n
        }),
{
    let count = file.read(data)?;
    chunk_len(count, SUBPACKET_SIZE)
}

/// The data pump: sends the data of the file from the offset that
/// `header` holds, up to ten subpackets of it, or ZEOF where there is
/// none. Where the source fails, nothing is sent. Where the source keeps
/// account of its file, what is sent are the bytes of the file from the
/// offset on.
pub fn write_zdata<F: Reader>(port: &mut Port, file: &mut F, header: &Header) -> (r: Result<
    (),
    InvalidData,
>)
    ensures
        r is Ok ==> pumped(*old(port), *final(port), 0, header.count_value() as u32),
        r is Err ==> *final(port) == *old(port),
        final(port).starved() == old(port).starved(),
        F::keeps_account() ==> final(file).contents() == old(file).contents(),
        F::keeps_account() && r is Ok ==> pumped_from(
            *old(port),
            *final(port),
            0,
            header.count_value() as u32,
            old(file).contents(),
        ),
{
    let offset = header.count();
    let ghost contents = file.contents();
    let mut data = [0u8; 1024];
    let mut chunks: Vec<Vec<u8>> = Vec::new();
    file.seek(offset)?;
    let mut count = read_chunk(file, &mut data)?;
    chunks.push(slice_to_vec(slice_subrange(data.as_slice(), 0, count)));
    proof {
        let none = Seq::<Seq<u8>>::empty();
        assert(chunk_views(chunks@) =~= none.push(data@.take(count as int)));
        assert(joined(none) =~= Seq::<u8>::empty());
        if F::keeps_account() {
            assert(bytes_at(contents, offset as nat, 0) =~= Seq::<u8>::empty());
            lemma_chunk_joins(contents, offset as nat, none, data@.take(count as int));
        }
    }
    if count > 0 {
        let mut i: usize = 1;
        while i < SUBPACKET_PER_ACK
            invariant_except_break
                i == chunks.len(),
                chunks@.last()@.len() == SUBPACKET_SIZE || i == 1,
            invariant
                *port == *old(port),
                1 <= i <= SUBPACKET_PER_ACK,
                1 <= chunks.len() <= SUBPACKET_PER_ACK,
                chunks@[0]@.len() > 0,
                forall|j: int|
                    0 <= j < chunks.len() ==> (#[trigger] chunks@[j])@.len() <= SUBPACKET_SIZE,
                forall|j: int|
                    1 <= j < chunks.len() - 1 ==> (#[trigger] chunks@[j])@.len()
                        == SUBPACKET_SIZE,
                contents == old(file).contents(),
                offset == header.count_value(),
                F::keeps_account() ==> {
                    let had = joined(chunk_views(chunks@));
                    &&& file.contents() == contents
                    &&& file.position() == offset + had.len()
                    &&& had.len() <= left_at(contents.len(), offset as nat)
                    &&& had == bytes_at(contents, offset as nat, had.len())
                },
            ensures
                chunks.len() >= 2,
                chunks@.last()@.len() == SUBPACKET_SIZE ==> chunks.len() == SUBPACKET_PER_ACK,
            decreases SUBPACKET_PER_ACK - i,
        {
            let ghost views = chunk_views(chunks@);
            count = read_chunk(file, &mut data)?;
            chunks.push(slice_to_vec(slice_subrange(data.as_slice(), 0, count)));
            proof {
                assert(chunk_views(chunks@) =~= views.push(data@.take(count as int)));
                if F::keeps_account() {
                    lemma_chunk_joins(contents, offset as nat, views, data@.take(count as int));
                }
            }
            i = i + 1;
            if count < SUBPACKET_SIZE {
                break;
            }
        }
    }
    proof {
        let views = chunk_views(chunks@);
        assert(views.last() == chunks@.last()@);
        assert(views[0] == chunks@[0]@);
        assert forall|j: int| 0 <= j < views.len() implies (#[trigger] views[j]).len()
            <= SUBPACKET_SIZE by {
            assert(views[j] == chunks@[j]@);
        }
        assert forall|j: int| 1 <= j < views.len() - 1 implies (#[trigger] views[j]).len()
            == SUBPACKET_SIZE by {
            assert(views[j] == chunks@[j]@);
        }
        assert(is_pump(views));
    }
    write_window(port, offset, &chunks)?;
    proof {
        lemma_pumped(*old(port), *port, offset, chunk_views(chunks@));
        if F::keeps_account() {
            lemma_pumped_from(*old(port), *port, offset, chunk_views(chunks@), contents);
        }
    }
    Ok(())
}

/// What the sender does on a header.
pub enum TxAction {
    /// It sends these bytes, which may be none.
    Reply(Seq<u8>),
    /// It names the file.
    Announce,
    /// It sends data from the given offset.
    Pump(u32),
    /// It sends the two bytes that end the session, and is done.
    Finish,
}

/// What the sender does on a header, at a stage.
///
/// ZRINIT: having waited, it names the file; having named it, it does
/// nothing; having sent data, it sends ZFIN. ZRPOS and ZACK: having
/// waited, it asks again with ZRQINIT; else it sends data from the
/// offset that the header holds. Any other frame: having waited, it asks
/// again with ZRQINIT; else it ends the session.
pub open spec fn tx_on_header(stage: Stage, h: Header) -> TxAction {
    if h.kind == Frame::ZRINIT {
        match stage {
            Stage::Waiting => TxAction::Announce,
            Stage::Ready => TxAction::Reply(Seq::empty()),
            Stage::Receiving => TxAction::Reply(zfin_header().wire()),
        }
    } else if stage == Stage::Waiting {
        TxAction::Reply(zrqinit_header().wire())
    } else if h.kind == Frame::ZRPOS || h.kind == Frame::ZACK {
        TxAction::Pump(h.count_value() as u32)
    } else {
        TxAction::Finish
    }
}

/// What one step of the sender comes to.
pub struct TxStep {
    /// The bytes ran out: the step reads nothing and does nothing.
    pub starved: bool,
    /// How many pending bytes the step reads.
    pub used: nat,
    /// What it does behind them.
    pub action: TxAction,
}

/// One step of the sender on the pending bytes `p`: it reads the opening
/// sequence of a header, and skips what is none; then the header, and
/// answers ZNAK to what is none; then it acts on the header.
pub open spec fn tx_step(stage: Stage, p: Seq<u8>) -> TxStep {
    match scan_zpad(p) {
        Scan::Short => TxStep { starved: true, used: 0, action: TxAction::Reply(Seq::empty()) },
        Scan::Bad { used } => TxStep {
            starved: false,
            used,
            action: TxAction::Reply(Seq::empty()),
        },
        Scan::Done { value, used } => match scan_header(p.skip(used as int)) {
            Scan::Short => TxStep {
                starved: true,
                used: 0,
                action: TxAction::Reply(Seq::empty()),
            },
            Scan::Bad { used: more } => TxStep {
                starved: false,
                used: used + more,
                action: TxAction::Reply(znak_header().wire()),
            },
            Scan::Done { value: h, used: more } => TxStep {
                starved: false,
                used: used + more,
                action: tx_on_header(stage, h),
            },
        },
    }
}

/// What acting on a header returns and leaves behind, where the header
/// took `used` bytes and asks for `action`.
///
/// A reply is sent, and the stage stays. The file is named where name
/// and size fit into a subpacket, and the stage is `Ready`; where they do
/// not, the step fails. Data is sent as the data pump sends it, and the
/// stage is `Receiving`; where the source fails, so does the step. The
/// session is ended with its last two bytes. A step that fails sends
/// nothing and leaves the stage.
pub open spec fn tx_acted(
    action: TxAction,
    used: nat,
    before: Port,
    after: Port,
    was: Stage,
    is: Stage,
    name: Seq<u8>,
    size: u32,
    r: Result<bool, InvalidData>,
) -> bool {
    &&& !after.starved()
    &&& r is Err ==> after.exchanged(before, used, Seq::empty()) && is == was
    &&& match action {
        TxAction::Reply(reply) => {
            &&& r == Ok::<bool, InvalidData>(false)
            &&& after.exchanged(before, used, reply)
            &&& is == was
        },
        TxAction::Announce => {
            &&& r is Ok <==> zfile_payload(name, size).len() <= SUBPACKET_SIZE
            &&& r is Ok ==> {
                &&& r == Ok::<bool, InvalidData>(false)
                &&& after.exchanged(before, used, zfile_wire(name, size))
                &&& is == Stage::Ready
            }
        },
        TxAction::Pump(offset) => r is Ok ==> {
            &&& r == Ok::<bool, InvalidData>(false)
            &&& is == Stage::Receiving
            &&& pumped(before, after, used, offset)
        },
        TxAction::Finish => {
            &&& r == Ok::<bool, InvalidData>(true)
            &&& after.exchanged(before, used, over_and_out())
            &&& is == was
        },
    }
}

/// What a step returns and leaves behind, where it comes to `step`. Where
/// the bytes ran out, the port and the stage are as they were, but for a
/// starved port, and the step fails. Elsewhere the step acts on what it
/// read.
pub open spec fn tx_stepped(
    step: TxStep,
    before: Port,
    after: Port,
    was: Stage,
    is: Stage,
    name: Seq<u8>,
    size: u32,
    r: Result<bool, InvalidData>,
) -> bool {
    if step.starved {
        &&& r is Err
        &&& after.underran(before)
        &&& is == was
    } else {
        tx_acted(step.action, step.used, before, after, was, is, name, size, r)
    }
}

/// The first act of the sender: it asks for a receiver with ZRQINIT. This
/// never fails.
pub fn write_start(port: &mut Port) -> (r: Result<(), InvalidData>)
    ensures
        r is Ok,
        final(port).wrote(*old(port), zrqinit_header().wire()),
{
    Header::new(Encoding::ZHEX, Frame::ZRQINIT).write(port)
}

/// Where a step that did not fail runs the data pump at `offset` on a
/// source that keeps account of its file, what it sends are the bytes of
/// the file `contents` from `offset` on.
pub open spec fn tx_sent_file(
    action: TxAction,
    used: nat,
    before: Port,
    after: Port,
    contents: Seq<u8>,
    r: Result<bool, InvalidData>,
) -> bool {
    r is Ok ==> (action matches TxAction::Pump(offset) ==> pumped_from(
        before,
        after,
        used,
        offset,
        contents,
    ))
}

/// One step of the sender: it reads one header, acts on it, and tells
/// whether the session is over. Where the pending bytes do not hold a
/// whole header, it fails and leaves a starved port and everything else as
/// it was: the step can be taken again when more bytes have come in. A
/// source that keeps account of its file keeps the file, and what the data
/// pump sends are the bytes of the file.
pub fn write_step<F: Reader>(
    port: &mut Port,
    file: &mut F,
    name: &str,
    size: Option<u32>,
    stage: &mut Stage,
) -> (r: Result<bool, InvalidData>)
    ensures
        tx_stepped(
            tx_step(*old(stage), old(port).pending()),
            *old(port),
            *final(port),
            *old(stage),
            *final(stage),
            name.spec_bytes(),
            size_sent(size),
            r,
        ),
        F::keeps_account() ==> final(file).contents() == old(file).contents(),
        F::keeps_account() ==> tx_sent_file(
            tx_step(*old(stage), old(port).pending()).action,
            tx_step(*old(stage), old(port).pending()).used,
            *old(port),
            *final(port),
            old(file).contents(),
            r,
        ),
{
    let mark = port.mark();
    let ghost start = *port;
    match read_zpad(port) {
        Ok(()) => {},
        Err(e) => {
            if port.is_starved() {
                let ghost end = *port;
                port.rewind(mark);
                proof {
                    lemma_rewound(start, end, *port);
                }
                return Err(e);
            }
            proof {
                lemma_took_silent(start, *port, scan_zpad(start.pending())->Bad_used);
            }
            return Ok(false);
        },
    }
    let ghost lead = scan_zpad(start.pending())->Done_used;
    let ghost mid = *port;
    let frame = match Header::read(port) {
        Ok(frame) => frame,
        Err(e) => {
            if port.is_starved() {
                proof {
                    lemma_took_rest(start, mid, *port, lead);
                }
                let ghost end = *port;
                port.rewind(mark);
                proof {
                    lemma_rewound(start, end, *port);
                }
                return Err(e);
            }
            let ghost more = scan_header(mid.pending())->Bad_used;
            proof {
                lemma_took_chain(start, mid, *port, lead, more);
            }
            let ghost behind = *port;
            Header::new(Encoding::ZHEX, Frame::ZNAK).write(port)?;
            proof {
                lemma_took_wrote(start, behind, *port, lead + more, znak_header().wire());
            }
            return Ok(false);
        },
    };
    proof {
        lemma_took_chain(start, mid, *port, lead, scan_header(mid.pending())->Done_used);
    }
    write_header(
        &frame,
        port,
        file,
        name,
        size,
        stage,
        Ghost(start),
        Ghost(lead + scan_header(mid.pending())->Done_used),
    )
}

/// Acts on a header that was read: the port stands behind the header, and
/// `start` is where it stood before the step.
fn write_header<F: Reader>(
    frame: &Header,
    port: &mut Port,
    file: &mut F,
    name: &str,
    size: Option<u32>,
    stage: &mut Stage,
    Ghost(start): Ghost<Port>,
    Ghost(used): Ghost<nat>,
) -> (r: Result<bool, InvalidData>)
    requires
        old(port).took(start, used),
        !old(port).starved(),
    ensures
        tx_acted(
            tx_on_header(*old(stage), *frame),
            used,
            start,
            *final(port),
            *old(stage),
            *final(stage),
            name.spec_bytes(),
            size_sent(size),
            r,
        ),
        F::keeps_account() ==> final(file).contents() == old(file).contents(),
        F::keeps_account() ==> tx_sent_file(
            tx_on_header(*old(stage), *frame),
            used,
            start,
            *final(port),
            old(file).contents(),
            r,
        ),
{
    proof {
        lemma_took_silent(start, *port, used);
    }
    let ghost behind = *port;
    match decide(*stage, frame) {
        Duty::Nothing => Ok(false),
        Duty::SendZfin => {
            Header::new(Encoding::ZHEX, Frame::ZFIN).write(port)?;
            proof {
                lemma_took_wrote(start, behind, *port, used, zfin_header().wire());
            }
            Ok(false)
        },
        Duty::Ask => {
            write_start(port)?;
            proof {
                lemma_took_wrote(start, behind, *port, used, zrqinit_header().wire());
            }
            Ok(false)
        },
        Duty::Announce => {
            let size = match size {
                Some(size) => size,
                None => 0,
            };
            Header::write_zfile(port, name, size)?;
            proof {
                lemma_took_wrote(start, behind, *port, used, zfile_wire(name.spec_bytes(), size));
            }
            *stage = Stage::Ready;
            Ok(false)
        },
        Duty::Pump => {
            write_zdata(port, file, frame)?;
            proof {
                lemma_pumped_behind(start, behind, *port, used, frame.count_value() as u32);
                if F::keeps_account() {
                    lemma_pumped_from_behind(
                        start,
                        behind,
                        *port,
                        used,
                        frame.count_value() as u32,
                        old(file).contents(),
                    );
                }
            }
            *stage = Stage::Receiving;
            Ok(false)
        },
        Duty::Finish => {
            let bye: [u8; 2] = [0x4f, 0x4f];
            port.write_all(bye.as_slice());
            proof {
                assert(bye@ =~= over_and_out());
                lemma_took_wrote(start, behind, *port, used, over_and_out());
            }
            Ok(true)
        },
    }
}

/// What the sender is to do on a header.
enum Duty {
    Nothing,
    SendZfin,
    Ask,
    Announce,
    Pump,
    Finish,
}

/// What the sender is to do on the header `frame`, at a stage.
fn decide(stage: Stage, frame: &Header) -> (duty: Duty)
    ensures
        tx_on_header(stage, *frame) == match duty {
            Duty::Nothing => TxAction::Reply(Seq::empty()),
            Duty::SendZfin => TxAction::Reply(zfin_header().wire()),
            Duty::Ask => TxAction::Reply(zrqinit_header().wire()),
            Duty::Announce => TxAction::Announce,
            Duty::Pump => TxAction::Pump(frame.count_value() as u32),
            Duty::Finish => TxAction::Finish,
        },
{
    match frame.kind() {
        Frame::ZRINIT => match stage {
            Stage::Waiting => Duty::Announce,
            Stage::Ready => Duty::Nothing,
            Stage::Receiving => Duty::SendZfin,
        },
        Frame::ZRPOS | Frame::ZACK => match stage {
            Stage::Waiting => Duty::Ask,
            _ => Duty::Pump,
        },
        _ => match stage {
            Stage::Waiting => Duty::Ask,
            _ => Duty::Finish,
        },
    }
}

/// What a run of the sender comes to.
pub struct TxRun {
    /// The run came to the end of the session.
    pub finished: bool,
    /// How many pending bytes it read.
    pub used: nat,
    /// What it sent.
    pub sent: Seq<u8>,
    /// How many times it ran the data pump.
    pub pumps: nat,
}

/// The run that does nothing.
pub open spec fn tx_stop() -> TxRun {
    TxRun { finished: false, used: 0, sent: Seq::empty(), pumps: 0 }
}

/// The run that fails behind a header of `used` bytes that it read, and
/// sends nothing.
pub open spec fn tx_halt(used: nat) -> TxRun {
    TxRun { finished: false, used, sent: Seq::empty(), pumps: 0 }
}

/// What a run comes to that goes on as `rest` does, behind a part that
/// read `used` bytes, sent `sent` and ran the data pump `pumps` times.
pub open spec fn tx_then(used: nat, sent: Seq<u8>, pumps: nat, rest: TxRun) -> TxRun {
    TxRun {
        finished: rest.finished,
        used: used + rest.used,
        sent: sent + rest.sent,
        pumps: pumps + rest.pumps,
    }
}

/// The run of the sender from a stage on the pending bytes `p`: one step
/// after the other, until the session is over or a step fails. `reads`
/// holds, for each time that the data pump runs, the chunks that it reads
/// from the source. A step fails, and the run ends short of the end of the
/// session, where the step finds too few bytes, and reads none; and behind
/// the header that it read, where name and size do not fit into a
/// subpacket, and where the data pump is to run more often than `reads`
/// has chunks for: so it is where the source fails.
#[verifier::opaque]
pub open spec fn tx_run(
    stage: Stage,
    p: Seq<u8>,
    name: Seq<u8>,
    size: u32,
    reads: Seq<Seq<Seq<u8>>>,
) -> TxRun
    decreases p.len(),
{
    let step = tx_step(stage, p);
    if step.starved || step.used == 0 || step.used > p.len() {
        tx_stop()
    } else {
        let behind = p.skip(step.used as int);
        match step.action {
            TxAction::Finish => TxRun {
                finished: true,
                used: step.used,
                sent: over_and_out(),
                pumps: 0,
            },
            TxAction::Reply(reply) => tx_then(
                step.used,
                reply,
                0,
                tx_run(stage, behind, name, size, reads),
            ),
            TxAction::Announce => if zfile_payload(name, size).len() <= SUBPACKET_SIZE {
                tx_then(
                    step.used,
                    zfile_wire(name, size),
                    0,
                    tx_run(Stage::Ready, behind, name, size, reads),
                )
            } else {
                tx_halt(step.used)
            },
            TxAction::Pump(offset) => if reads.len() == 0 {
                tx_halt(step.used)
            } else {
                tx_then(
                    step.used,
                    pump_wire(offset, reads[0]),
                    1,
                    tx_run(Stage::Receiving, behind, name, size, reads.skip(1)),
                )
            },
        }
    }
}

/// Whether `after` is `before` after the sender ran on it, where the data
/// pump read `reads`, and whether it came to the end of the session is
/// `over`. The sender asked for a receiver with ZRQINIT; then it took the
/// steps of the run for `reads`, ran the data pump once for each of them,
/// read what the run read and sent what the run sent.
pub open spec fn tx_ran(
    before: Port,
    after: Port,
    name: Seq<u8>,
    size: u32,
    reads: Seq<Seq<Seq<u8>>>,
    over: bool,
) -> bool {
    let run = tx_run(Stage::Waiting, before.pending(), name, size, reads);
    &&& forall|i: int| 0 <= i < reads.len() ==> is_pump(#[trigger] reads[i])
    &&& run.finished == over
    &&& run.pumps == reads.len()
    &&& after.exchanged(before, run.used, zrqinit_header().wire() + run.sent)
}

/// A run is its first step and, where that neither ends the session nor
/// fails, the run behind it. `chunks` are what the data pump reads where
/// the first step runs it.
pub proof fn lemma_tx_run_unfold(
    stage: Stage,
    p: Seq<u8>,
    name: Seq<u8>,
    size: u32,
    chunks: Seq<Seq<u8>>,
    future: Seq<Seq<Seq<u8>>>,
)
    ensures
        ({
            let step = tx_step(stage, p);
            let behind = p.skip(step.used as int);
            !step.starved && 1 <= step.used <= p.len() ==> match step.action {
                TxAction::Finish => tx_run(stage, p, name, size, future) == TxRun {
                    finished: true,
                    used: step.used,
                    sent: over_and_out(),
                    pumps: 0,
                },
                TxAction::Reply(reply) => tx_run(stage, p, name, size, future) == tx_then(
                    step.used,
                    reply,
                    0,
                    tx_run(stage, behind, name, size, future),
                ),
                TxAction::Announce => zfile_payload(name, size).len() <= SUBPACKET_SIZE ==> tx_run(
                    stage,
                    p,
                    name,
                    size,
                    future,
                ) == tx_then(
                    step.used,
                    zfile_wire(name, size),
                    0,
                    tx_run(Stage::Ready, behind, name, size, future),
                ),
                TxAction::Pump(offset) => tx_run(stage, p, name, size, seq![chunks] + future)
                    == tx_then(
                    step.used,
                    pump_wire(offset, chunks),
                    1,
                    tx_run(Stage::Receiving, behind, name, size, future),
                ),
            }
        }),
{
    reveal(tx_run);
    let all = seq![chunks] + future;
    assert(all[0] == chunks);
    assert(all.skip(1) =~= future);
}

/// Whether `chunks` are the bytes of the file `contents` from `offset` on.
pub open spec fn chunks_from(contents: Seq<u8>, offset: u32, chunks: Seq<Seq<u8>>) -> bool {
    &&& joined(chunks).len() <= left_at(contents.len(), offset as nat)
    &&& joined(chunks) == bytes_at(contents, offset as nat, joined(chunks).len())
}

/// Whether, in the run of the sender for `reads`, the chunks of each run
/// of the data pump are the bytes of the file `contents` from the offset
/// on at which the data pump ran.
#[verifier::opaque]
pub open spec fn tx_reads_file(
    stage: Stage,
    p: Seq<u8>,
    name: Seq<u8>,
    size: u32,
    reads: Seq<Seq<Seq<u8>>>,
    contents: Seq<u8>,
) -> bool
    decreases p.len(),
{
    let step = tx_step(stage, p);
    if step.starved || step.used == 0 || step.used > p.len() {
        true
    } else {
        let behind = p.skip(step.used as int);
        match step.action {
            TxAction::Finish => true,
            TxAction::Reply(reply) => tx_reads_file(stage, behind, name, size, reads, contents),
            TxAction::Announce => zfile_payload(name, size).len() <= SUBPACKET_SIZE
                ==> tx_reads_file(Stage::Ready, behind, name, size, reads, contents),
            TxAction::Pump(offset) => reads.len() > 0 ==> chunks_from(contents, offset, reads[0])
                && tx_reads_file(Stage::Receiving, behind, name, size, reads.skip(1), contents),
        }
    }
}

/// Whether `after` is `before` after the sender ran on it as `tx_ran` has
/// it, and the chunks that the data pump read are the bytes of the file
/// `contents`.
pub open spec fn tx_ran_from(
    before: Port,
    after: Port,
    name: Seq<u8>,
    size: u32,
    reads: Seq<Seq<Seq<u8>>>,
    over: bool,
    contents: Seq<u8>,
) -> bool {
    &&& tx_ran(before, after, name, size, reads, over)
    &&& tx_reads_file(Stage::Waiting, before.pending(), name, size, reads, contents)
}

/// A step that did not fail, from a source that keeps account of its
/// file, goes on a run as `lemma_tx_step_taken` has it, and the chunks that
/// the data pump read are the bytes of the file.
pub proof fn lemma_tx_step_taken_from(
    before: Port,
    after: Port,
    was: Stage,
    is: Stage,
    name: Seq<u8>,
    size: u32,
    done: bool,
    contents: Seq<u8>,
) -> (added: TxAdded)
    requires
        tx_stepped(
            tx_step(was, before.pending()),
            before,
            after,
            was,
            is,
            name,
            size,
            Ok::<bool, InvalidData>(done),
        ),
        tx_sent_file(
            tx_step(was, before.pending()).action,
            tx_step(was, before.pending()).used,
            before,
            after,
            contents,
            Ok::<bool, InvalidData>(done),
        ),
    ensures
        1 <= added.used <= before.pending().len(),
        after.exchanged(before, added.used, added.sent),
        forall|i: int| 0 <= i < added.reads.len() ==> is_pump(#[trigger] added.reads[i]),
        added.reads.len() > 0 ==> !tx_run(
            was,
            before.pending(),
            name,
            size,
            Seq::empty(),
        ).finished,
        done ==> forall|future: Seq<Seq<Seq<u8>>>| #[trigger]
            tx_run(was, before.pending(), name, size, added.reads + future) == (TxRun {
                finished: true,
                used: added.used,
                sent: added.sent,
                pumps: added.reads.len(),
            }),
        !done ==> forall|future: Seq<Seq<Seq<u8>>>| #[trigger]
            tx_run(was, before.pending(), name, size, added.reads + future) == tx_then(
                added.used,
                added.sent,
                added.reads.len(),
                tx_run(is, after.pending(), name, size, future),
            ),
        done ==> forall|future: Seq<Seq<Seq<u8>>>| #[trigger]
            tx_reads_file(was, before.pending(), name, size, added.reads + future, contents),
        !done ==> forall|future: Seq<Seq<Seq<u8>>>| #[trigger]
            tx_reads_file(was, before.pending(), name, size, added.reads + future, contents)
                == tx_reads_file(is, after.pending(), name, size, future, contents),
{
    let p = before.pending();
    let step = tx_step(was, p);
    lemma_scan_header_used(p.skip(scan_zpad(p)->Done_used as int));
    match step.action {
        TxAction::Pump(offset) => {
            reveal(pumped_from);
            reveal(tx_run);
            let chunks = choose|chunks: Seq<Seq<u8>>|
                is_pump(chunks) && after.exchanged(
                    before,
                    step.used,
                    #[trigger] pump_wire(offset, chunks),
                ) && joined(chunks).len() <= left_at(contents.len(), offset as nat) && joined(
                    chunks,
                ) == bytes_at(contents, offset as nat, joined(chunks).len());
            let added = TxAdded {
                used: step.used,
                sent: pump_wire(offset, chunks),
                reads: seq![chunks],
            };
            assert forall|future: Seq<Seq<Seq<u8>>>| #[trigger]
                tx_run(was, p, name, size, added.reads + future) == tx_then(
                    added.used,
                    added.sent,
                    added.reads.len(),
                    tx_run(is, after.pending(), name, size, future),
                ) by {
                lemma_tx_run_unfold(was, p, name, size, chunks, future);
            }
            assert forall|future: Seq<Seq<Seq<u8>>>| #[trigger]
                tx_reads_file(was, p, name, size, added.reads + future, contents) == tx_reads_file(
                    is,
                    after.pending(),
                    name,
                    size,
                    future,
                    contents,
                ) by {
                reveal(tx_reads_file);
                let all = added.reads + future;
                assert(all[0] == chunks);
                assert(all.skip(1) =~= future);
            }
            added
        },
        _ => {
            let added = lemma_tx_step_taken(before, after, was, is, name, size, done);
            assert forall|future: Seq<Seq<Seq<u8>>>|
                (done ==> #[trigger] tx_reads_file(
                    was,
                    p,
                    name,
                    size,
                    added.reads + future,
                    contents,
                )) && (!done ==> tx_reads_file(was, p, name, size, added.reads + future, contents)
                    == tx_reads_file(is, after.pending(), name, size, future, contents)) by {
                reveal(tx_reads_file);
                assert(added.reads + future =~= future);
            }
            added
        },
    }
}

/// A step that failed ends a run in which the data pump reads nothing, and
/// so nothing that is not of the file.
pub proof fn lemma_tx_reads_failed(
    before: Port,
    after: Port,
    was: Stage,
    is: Stage,
    name: Seq<u8>,
    size: u32,
    contents: Seq<u8>,
)
    requires
        tx_stepped(
            tx_step(was, before.pending()),
            before,
            after,
            was,
            is,
            name,
            size,
            Err::<bool, InvalidData>(InvalidData),
        ),
    ensures
        tx_reads_file(was, before.pending(), name, size, Seq::empty(), contents),
{
    reveal(tx_reads_file);
}

/// What a step of the sender that does not fail adds to a run: the bytes
/// that it read, what it sent, and the chunks that the data pump read,
/// where it ran.
pub struct TxAdded {
    pub used: nat,
    pub sent: Seq<u8>,
    pub reads: Seq<Seq<Seq<u8>>>,
}

/// A step that did not fail goes on a run: whatever the data pump reads
/// later, the run from before the step is the step and the run behind it.
pub proof fn lemma_tx_step_taken(
    before: Port,
    after: Port,
    was: Stage,
    is: Stage,
    name: Seq<u8>,
    size: u32,
    done: bool,
) -> (added: TxAdded)
    requires
        tx_stepped(
            tx_step(was, before.pending()),
            before,
            after,
            was,
            is,
            name,
            size,
            Ok::<bool, InvalidData>(done),
        ),
    ensures
        1 <= added.used <= before.pending().len(),
        after.exchanged(before, added.used, added.sent),
        forall|i: int| 0 <= i < added.reads.len() ==> is_pump(#[trigger] added.reads[i]),
        !(tx_step(was, before.pending()).action is Pump) ==> added.reads.len() == 0,
        added.reads.len() > 0 ==> !tx_run(
            was,
            before.pending(),
            name,
            size,
            Seq::empty(),
        ).finished,
        done ==> forall|future: Seq<Seq<Seq<u8>>>| #[trigger]
            tx_run(was, before.pending(), name, size, added.reads + future) == (TxRun {
                finished: true,
                used: added.used,
                sent: added.sent,
                pumps: added.reads.len(),
            }),
        !done ==> forall|future: Seq<Seq<Seq<u8>>>| #[trigger]
            tx_run(was, before.pending(), name, size, added.reads + future) == tx_then(
                added.used,
                added.sent,
                added.reads.len(),
                tx_run(is, after.pending(), name, size, future),
            ),
{
    let p = before.pending();
    let step = tx_step(was, p);
    lemma_scan_header_used(p.skip(scan_zpad(p)->Done_used as int));
    match step.action {
        TxAction::Pump(offset) => {
            reveal(pumped);
            reveal(tx_run);
            let chunks = choose|chunks: Seq<Seq<u8>>|
                is_pump(chunks) && after.exchanged(
                    before,
                    step.used,
                    #[trigger] pump_wire(offset, chunks),
                );
            let added = TxAdded {
                used: step.used,
                sent: pump_wire(offset, chunks),
                reads: seq![chunks],
            };
            assert forall|future: Seq<Seq<Seq<u8>>>| #[trigger]
                tx_run(was, p, name, size, added.reads + future) == tx_then(
                    added.used,
                    added.sent,
                    added.reads.len(),
                    tx_run(is, after.pending(), name, size, future),
                ) by {
                lemma_tx_run_unfold(was, p, name, size, chunks, future);
            }
            added
        },
        TxAction::Reply(reply) => {
            let added = TxAdded { used: step.used, sent: reply, reads: Seq::empty() };
            assert forall|future: Seq<Seq<Seq<u8>>>| #[trigger]
                tx_run(was, p, name, size, added.reads + future) == tx_then(
                    added.used,
                    added.sent,
                    added.reads.len(),
                    tx_run(is, after.pending(), name, size, future),
                ) by {
                lemma_tx_run_unfold(was, p, name, size, Seq::empty(), future);
                assert(added.reads + future =~= future);
            }
            added
        },
        TxAction::Announce => {
            let added = TxAdded {
                used: step.used,
                sent: zfile_wire(name, size),
                reads: Seq::empty(),
            };
            assert forall|future: Seq<Seq<Seq<u8>>>| #[trigger]
                tx_run(was, p, name, size, added.reads + future) == tx_then(
                    added.used,
                    added.sent,
                    added.reads.len(),
                    tx_run(is, after.pending(), name, size, future),
                ) by {
                lemma_tx_run_unfold(was, p, name, size, Seq::empty(), future);
                assert(added.reads + future =~= future);
            }
            added
        },
        TxAction::Finish => {
            let added = TxAdded { used: step.used, sent: over_and_out(), reads: Seq::empty() };
            assert forall|future: Seq<Seq<Seq<u8>>>| #[trigger]
                tx_run(was, p, name, size, added.reads + future) == (TxRun {
                    finished: true,
                    used: added.used,
                    sent: added.sent,
                    pumps: added.reads.len(),
                }) by {
                lemma_tx_run_unfold(was, p, name, size, Seq::empty(), future);
                assert(added.reads + future =~= future);
            }
            added
        },
    }
}

/// A step that failed ends a run in which the data pump reads nothing:
/// the run sends nothing and reads what the step read.
pub proof fn lemma_tx_step_failed(
    before: Port,
    after: Port,
    was: Stage,
    is: Stage,
    name: Seq<u8>,
    size: u32,
)
    requires
        tx_stepped(
            tx_step(was, before.pending()),
            before,
            after,
            was,
            is,
            name,
            size,
            Err::<bool, InvalidData>(InvalidData),
        ),
    ensures
        ({
            let run = tx_run(was, before.pending(), name, size, Seq::empty());
            &&& !run.finished
            &&& run.sent == Seq::<u8>::empty()
            &&& run.pumps == 0
            &&& after.exchanged(before, run.used, Seq::empty())
        }),
{
    reveal(tx_run);
    let p = before.pending();
    assert(p.take(0) == Seq::<u8>::empty());
    assert(p.skip(0) == p);
    assert(before.consumed() + Seq::<u8>::empty() == before.consumed());
    assert(before.sent() + Seq::<u8>::empty() == before.sent());
    lemma_scan_header_used(p.skip(scan_zpad(p)->Done_used as int));
}

/// What a step came to does not change when more bytes come in: a step
/// that did not find too few bytes is the same, whatever follows the bytes
/// that it read. So a sender may take each step as soon as the bytes for it
/// are there.
pub proof fn lemma_tx_step_stable(stage: Stage, p: Seq<u8>, more: Seq<u8>)
    requires
        !tx_step(stage, p).starved,
    ensures
        tx_step(stage, p + more) == tx_step(stage, p),
{
    lemma_scan_zpad_stable(p, more);
    match scan_zpad(p) {
        Scan::Done { value, used } => {
            let q = p.skip(used as int);
            assert((p + more).skip(used as int) =~= q + more);
            lemma_scan_header_stable(q, more);
        },
        _ => {},
    }
}

/// The sender ends the session on ZFIN, once it has named the file; and it
/// ends the session only then, and on a frame that is neither ZRINIT nor
/// ZRPOS nor ZACK.
pub proof fn lemma_sender_ends(stage: Stage, h: Header)
    ensures
        stage != Stage::Waiting && h.kind == Frame::ZFIN ==> tx_on_header(stage, h)
            == TxAction::Finish,
        tx_on_header(stage, h) == TxAction::Finish ==> stage != Stage::Waiting && h.kind
            != Frame::ZRINIT && h.kind != Frame::ZRPOS && h.kind != Frame::ZACK,
{
}

/// The sender leaves the stage `Waiting` only by naming the file.
pub proof fn lemma_sender_names_file_first(
    before: Port,
    after: Port,
    is: Stage,
    name: Seq<u8>,
    size: u32,
    r: Result<bool, InvalidData>,
)
    requires
        tx_stepped(
            tx_step(Stage::Waiting, before.pending()),
            before,
            after,
            Stage::Waiting,
            is,
            name,
            size,
            r,
        ),
        is != Stage::Waiting,
    ensures
        is == Stage::Ready,
        after.sent() == before.sent() + zfile_wire(name, size),
{
}

} // verus!
