//! The two endpoints agree: what the sender sends to name a file and to
//! carry its data, the receiver takes in as that name and that data.

use vstd::prelude::*;
use crate::file::{
    decimal, lemma_decimal_len_u32, name_field, until_nul, zfile_payload, zfile_wire,
    zrpos_header, NAME_MAX,
};
use crate::escape::escape_seq;
use crate::frame::{
    crc_bytes, header_with, lemma_header_round_trip, lemma_le32_value, Header,
};
use crate::recv::{
    lemma_rx_run_unfold, lemma_rx_step_on, ready_header, rx_on_header, rx_run, rx_step,
    zack_header, RxRun, RxStep,
};
use crate::send::{data_header, is_pump, pump_wire, streamed};
use crate::subpacket::{lemma_subpacket_round_trip, subpacket_wire, RX_CAPACITY, SUBPACKET_SIZE};
use crate::tags::{Encoding, Frame, Packet};

verus! {

/// All the bytes of `chunks`, in order.
pub open spec fn joined(chunks: Seq<Seq<u8>>) -> Seq<u8>
    decreases chunks.len(),
{
    if chunks.len() == 0 {
        Seq::empty()
    } else {
        chunks[0] + joined(chunks.skip(1))
    }
}

/// What a run comes to that goes on, behind the steps of `front`, as
/// `rest` does.
pub open spec fn rx_then(front: RxRun, rest: RxRun) -> RxRun {
    RxRun {
        finished: rest.finished,
        used: front.used + rest.used,
        reply: front.reply + rest.reply,
        data: front.data + rest.data,
        file: rest.file,
        count: rest.count,
    }
}

/// A name without NUL is what stands in front of the first NUL of the
/// payload that carries it.
pub proof fn lemma_until_nul(name: Seq<u8>, behind: Seq<u8>)
    requires
        forall|i: int| 0 <= i < name.len() ==> name[i] != 0,
    ensures
        until_nul(name.push(0u8) + behind) == name,
    decreases name.len(),
{
    let s = name.push(0u8) + behind;
    if name.len() == 0 {
        assert(s[0] == 0);
        assert(name =~= Seq::<u8>::empty());
    } else {
        assert(s[0] == name[0]);
        let tail = name.skip(1);
        assert(s.skip(1) =~= tail.push(0u8) + behind);
        assert forall|i: int| 0 <= i < tail.len() implies tail[i] != 0 by {
            assert(tail[i] == name[i + 1]);
        }
        lemma_until_nul(tail, behind);
        assert(seq![name[0]] + tail =~= name);
    }
}

/// A header of any encoding that was sent is read by a step of the
/// receiver, which then acts on it; what follows a hex header is still
/// pending.
pub proof fn lemma_step_on_header(file: Option<Seq<u8>>, count: u32, h: Header, rest: Seq<u8>)
    ensures
        rx_step(file, count, None, h.wire() + rest) == rx_on_header(
            file,
            count,
            h,
            (h.wire().len() - h.trailer().len()) as nat,
            h.trailer() + rest,
        ),
        h.encoding != Encoding::ZHEX ==> h.trailer() + rest == rest && h.trailer().len() == 0,
{
    lemma_header_round_trip(h, rest);
    let p = h.wire() + rest;
    let lead = (h.lead().len() - 1) as nat;
    let body = escape_seq(h.body(crc_bytes(h.encoding, h.payload())));
    lemma_rx_step_on(file, count, p, lead, h, 1 + body.len());
    lemma_wire_parts(h, rest);
    if h.encoding != Encoding::ZHEX {
        assert(h.trailer() + rest =~= rest);
    }
}

/// A frame on the wire is its opening sequence, the encoding byte and the
/// escaped octets of its body, and what follows a hex header.
pub proof fn lemma_wire_parts(h: Header, rest: Seq<u8>)
    ensures
        ({
            let body = escape_seq(h.body(crc_bytes(h.encoding, h.payload())));
            let used = h.lead().len() + body.len();
            &&& h.wire().len() == used + h.trailer().len()
            &&& (h.wire() + rest).skip(used as int) == h.trailer() + rest
        }),
{
    let body = escape_seq(h.body(crc_bytes(h.encoding, h.payload())));
    let used = h.lead().len() + body.len();
    assert(h.wire() + rest =~= (h.lead() + body) + (h.trailer() + rest));
    assert((h.wire() + rest).skip(used as int) =~= h.trailer() + rest);
}

/// Naming the file: what the sender sends to name a file, a receiver
/// without a file answers with ZRPOS 0, and has the file of that name
/// open, where the name is not empty, has no NUL and at most 255 bytes.
pub proof fn lemma_file_is_named(name: Seq<u8>, size: u32, rest: Seq<u8>)
    requires
        0 < name.len() <= NAME_MAX,
        forall|i: int| 0 <= i < name.len() ==> name[i] != 0,
    ensures
        ({
            let step = rx_step(None, 0, None, zfile_wire(name, size) + rest);
            &&& !step.starved
            &&& !step.fatal
            &&& !step.finished
            &&& step.used == zfile_wire(name, size).len()
            &&& step.reply == zrpos_header(0).wire()
            &&& step.data == Seq::<u8>::empty()
            &&& step.file == Some(name_field(name))
            &&& step.count == 0
            &&& step.stream is None
        }),
{
    let h = header_with(Encoding::ZBIN32, Frame::ZFILE, seq![0u8, 0u8, 0u8, 0u8]);
    let payload = zfile_payload(name, size);
    let packet = subpacket_wire(Encoding::ZBIN32, Packet::ZCRCW, payload);
    let behind = packet + rest;
    assert(zfile_wire(name, size) + rest =~= h.wire() + behind);
    lemma_step_on_header(None, 0, h, behind);
    lemma_decimal_len_u32(size);
    lemma_subpacket_round_trip(
        Encoding::ZBIN32,
        Packet::ZCRCW,
        payload,
        rest,
        RX_CAPACITY as nat,
    );
    lemma_until_nul(name, decimal(size as nat).push(0u8));
}

/// The ZCRCG subpackets of some chunks are that of the first chunk and
/// those of the others.
pub proof fn lemma_streamed_head(chunks: Seq<Seq<u8>>)
    requires
        chunks.len() > 0,
    ensures
        streamed(chunks) == subpacket_wire(Encoding::ZBIN32, Packet::ZCRCG, chunks[0]) + streamed(
            chunks.skip(1),
        ),
    decreases chunks.len(),
{
    let first = subpacket_wire(Encoding::ZBIN32, Packet::ZCRCG, chunks[0]);
    if chunks.len() == 1 {
        assert(chunks.drop_last() =~= Seq::<Seq<u8>>::empty());
        assert(chunks.skip(1) =~= Seq::<Seq<u8>>::empty());
        assert(streamed(chunks.drop_last()) =~= Seq::<u8>::empty());
        assert(chunks.last() == chunks[0]);
        assert(streamed(chunks) =~= first);
        assert(first + streamed(chunks.skip(1)) =~= first);
    } else {
        let front = chunks.drop_last();
        lemma_streamed_head(front);
        assert(front[0] == chunks[0]);
        assert(front.skip(1) =~= chunks.skip(1).drop_last());
        assert(chunks.skip(1).last() == chunks.last());
        let last = subpacket_wire(Encoding::ZBIN32, Packet::ZCRCG, chunks.last());
        assert(first + streamed(front.skip(1)) + last =~= first + (streamed(front.skip(1)) + last));
    }
}

/// A subpacket that was sent is read by a step of a receiver inside a data
/// frame, which keeps and counts its data. ZCRCW and ZCRCQ it answers with
/// ZACK for the new count; ZCRCW and ZCRCE end the frame.
pub proof fn lemma_step_on_data(
    file: Option<Seq<u8>>,
    count: u32,
    kind: Packet,
    chunk: Seq<u8>,
    behind: Seq<u8>,
)
    requires
        chunk.len() < RX_CAPACITY,
        count + chunk.len() <= u32::MAX,
    ensures
        ({
            let sent = subpacket_wire(Encoding::ZBIN32, kind, chunk);
            let total = (count + chunk.len()) as u32;
            rx_step(file, count, Some(Encoding::ZBIN32), sent + behind) == RxStep {
                starved: false,
                fatal: false,
                used: sent.len(),
                reply: if kind == Packet::ZCRCW || kind == Packet::ZCRCQ {
                    zack_header(total).wire()
                } else {
                    Seq::empty()
                },
                data: chunk,
                file,
                count: total,
                stream: if kind == Packet::ZCRCW || kind == Packet::ZCRCE {
                    None
                } else {
                    Some(Encoding::ZBIN32)
                },
                finished: false,
            }
        }),
{
    reveal(rx_step);
    lemma_subpacket_round_trip(Encoding::ZBIN32, kind, chunk, behind, RX_CAPACITY as nat);
}

/// A receiver inside a data frame takes in the subpackets of the data
/// pump: the ZCRCG subpackets of `chunks` and the ZCRCW subpacket of
/// `last`. It counts and keeps the data of all of them, confirms the new
/// count with ZACK, and is then outside the frame.
pub proof fn lemma_stream_is_taken(
    file: Option<Seq<u8>>,
    count: u32,
    chunks: Seq<Seq<u8>>,
    last: Seq<u8>,
    rest: Seq<u8>,
)
    requires
        forall|i: int| 0 <= i < chunks.len() ==> (#[trigger] chunks[i]).len() <= SUBPACKET_SIZE,
        last.len() <= SUBPACKET_SIZE,
        count + joined(chunks).len() + last.len() <= u32::MAX,
    ensures
        ({
            let sent = streamed(chunks) + subpacket_wire(Encoding::ZBIN32, Packet::ZCRCW, last);
            let total = (count + joined(chunks).len() + last.len()) as u32;
            rx_run(file, count, Some(Encoding::ZBIN32), sent + rest) == rx_then(
                RxRun {
                    finished: false,
                    used: sent.len(),
                    reply: zack_header(total).wire(),
                    data: joined(chunks) + last,
                    file,
                    count: total,
                },
                rx_run(file, total, None, rest),
            )
        }),
    decreases chunks.len(),
{
    let e = Encoding::ZBIN32;
    let end = subpacket_wire(e, Packet::ZCRCW, last);
    let sent = streamed(chunks) + end;
    let total = (count + joined(chunks).len() + last.len()) as u32;
    let after = rx_run(file, total, None, rest);
    let reply = zack_header(total).wire();
    lemma_rx_run_unfold(file, count, Some(e), sent + rest);
    if chunks.len() == 0 {
        assert(sent =~= end);
        assert(joined(chunks) + last =~= last);
        lemma_step_on_data(file, count, Packet::ZCRCW, last, rest);
        assert((end + rest).skip(end.len() as int) =~= rest);
        assert(sent + rest =~= end + rest);
    } else {
        let first = subpacket_wire(e, Packet::ZCRCG, chunks[0]);
        let others = chunks.skip(1);
        lemma_streamed_head(chunks);
        let tail = streamed(others) + end + rest;
        assert(sent + rest =~= first + tail);
        lemma_step_on_data(file, count, Packet::ZCRCG, chunks[0], tail);
        assert((first + tail).skip(first.len() as int) =~= tail);
        assert(joined(chunks) == chunks[0] + joined(others));
        let next = (count + chunks[0].len()) as u32;
        assert forall|i: int| 0 <= i < others.len() implies (#[trigger] others[i]).len()
            <= SUBPACKET_SIZE by {
            assert(others[i] == chunks[i + 1]);
        }
        lemma_stream_is_taken(file, next, others, last, rest);
        assert(Seq::<u8>::empty() + (reply + after.reply) =~= reply + after.reply);
        assert(chunks[0] + (joined(others) + last + after.data) =~= joined(chunks) + last
            + after.data);
        assert(sent.len() == first.len() + (streamed(others) + end).len());
    }
}

/// Carrying the data: what the data pump sends at the offset that a
/// receiver with an open file has counted to, the receiver takes in
/// whole. The end of the file it answers with ZRINIT. The data of a
/// window it keeps and counts, in the order of the chunks, and confirms
/// with ZACK for the new count.
pub proof fn lemma_pump_is_taken(
    file: Seq<u8>,
    offset: u32,
    chunks: Seq<Seq<u8>>,
    rest: Seq<u8>,
)
    requires
        is_pump(chunks),
        offset + joined(chunks).len() <= u32::MAX,
    ensures
        ({
            let sent = pump_wire(offset, chunks);
            let total = (offset + joined(chunks).len()) as u32;
            rx_run(Some(file), offset, None, sent + rest) == rx_then(
                RxRun {
                    finished: false,
                    used: sent.len(),
                    reply: if chunks.len() == 1 {
                        ready_header().wire()
                    } else {
                        zack_header(total).wire()
                    },
                    data: joined(chunks),
                    file: Some(file),
                    count: total,
                },
                rx_run(Some(file), total, None, rest),
            )
        }),
{
    let e = Encoding::ZBIN32;
    let sent = pump_wire(offset, chunks);
    let total = (offset + joined(chunks).len()) as u32;
    lemma_rx_run_unfold(Some(file), offset, None, sent + rest);
    lemma_le32_value(offset);
    if chunks.len() == 1 {
        let h = data_header(Frame::ZEOF, offset);
        lemma_step_on_header(Some(file), offset, h, rest);
        assert(chunks.skip(1) =~= Seq::<Seq<u8>>::empty());
        assert(joined(chunks) =~= chunks[0] + joined(chunks.skip(1)));
        assert(joined(chunks) =~= Seq::<u8>::empty());
        let step = rx_step(Some(file), offset, None, sent + rest);
        assert((sent + rest).skip(step.used as int) =~= rest);
        let after = rx_run(Some(file), total, None, rest);
        assert(Seq::<u8>::empty() + after.data =~= joined(chunks) + after.data);
    } else {
        let h = data_header(Frame::ZDATA, offset);
        let front = chunks.drop_last();
        let last = chunks.last();
        let stream = streamed(front) + subpacket_wire(e, Packet::ZCRCW, last);
        assert(sent + rest =~= h.wire() + (stream + rest));
        lemma_step_on_header(Some(file), offset, h, stream + rest);
        let step = rx_step(Some(file), offset, None, sent + rest);
        assert((sent + rest).skip(step.used as int) =~= stream + rest);
        lemma_joined_last(chunks);
        assert forall|i: int| 0 <= i < front.len() implies (#[trigger] front[i]).len()
            <= SUBPACKET_SIZE by {
            assert(front[i] == chunks[i]);
        }
        lemma_stream_is_taken(Some(file), offset, front, last, rest);
        let after = rx_run(Some(file), total, None, rest);
        let reply = zack_header(total).wire();
        assert(Seq::<u8>::empty() + (reply + after.reply) =~= reply + after.reply);
        assert(Seq::<u8>::empty() + (joined(front) + last + after.data) =~= joined(chunks)
            + after.data);
        assert(sent.len() == h.wire().len() + stream.len());
    }
}

/// All the bytes of some chunks are those of all but the last, and those
/// of the last.
pub proof fn lemma_joined_last(chunks: Seq<Seq<u8>>)
    requires
        chunks.len() > 0,
    ensures
        joined(chunks) == joined(chunks.drop_last()) + chunks.last(),
    decreases chunks.len(),
{
    if chunks.len() == 1 {
        assert(chunks.skip(1) =~= Seq::<Seq<u8>>::empty());
        assert(chunks.drop_last() =~= Seq::<Seq<u8>>::empty());
        assert(joined(chunks) =~= chunks[0] + joined(chunks.skip(1)));
        assert(joined(chunks) =~= chunks[0]);
        assert(joined(chunks.drop_last()) + chunks.last() =~= chunks[0]);
    } else {
        let others = chunks.skip(1);
        lemma_joined_last(others);
        assert(others.drop_last() =~= chunks.drop_last().skip(1));
        assert(others.last() == chunks.last());
        assert(chunks.drop_last()[0] == chunks[0]);
        assert(chunks[0] + (joined(others.drop_last()) + others.last()) =~= chunks[0] + joined(
            others.drop_last(),
        ) + others.last());
    }
}

} // verus!
