//! A whole session: what the two endpoints send each other from the first
//! header to the last, and that each of them, reading what the other
//! sends, sends what the other reads.

use vstd::prelude::*;
use crate::agree::{
    joined, lemma_file_is_named, lemma_pump_is_taken, lemma_step_on_header, lemma_wire_parts,
    rx_then,
};
use crate::escape::ZPAD;
use crate::file::{
    lemma_decimal_len_u32, name_field, zfile_payload, zfile_wire, zrpos_header, NAME_MAX,
};
use crate::frame::{lemma_header_round_trip, lemma_le32_value, Header};
use crate::recv::{
    lemma_rx_run_unfold, ready_header, rx_pass, rx_run, rx_step, zack_header, zfin_header, RxRun,
};
use crate::send::{
    is_pump, lemma_tx_run_unfold, over_and_out, pump_wire, tx_on_header, tx_run, tx_step,
    tx_then, zrqinit_header, Stage, TxAction, TxStep,
};
use crate::subpacket::SUBPACKET_SIZE;

verus! {

/// A part of a run of the receiver that read `used` bytes, answered
/// `reply` and kept `data`.
pub open spec fn rx_part(used: nat, reply: Seq<u8>, data: Seq<u8>) -> RxRun {
    RxRun { finished: false, used, reply, data, file: None, count: 0 }
}

/// A byte that is no ZPAD is skipped by a receiver outside a data frame.
pub proof fn lemma_rx_skips(
    file: Option<Seq<u8>>,
    count: u32,
    noise: Seq<u8>,
    rest: Seq<u8>,
)
    requires
        forall|i: int| 0 <= i < noise.len() ==> noise[i] != ZPAD,
    ensures
        rx_run(file, count, None, noise + rest) == rx_then(
            rx_part(noise.len(), Seq::empty(), Seq::empty()),
            rx_run(file, count, None, rest),
        ),
    decreases noise.len(),
{
    let after = rx_run(file, count, None, rest);
    if noise.len() == 0 {
        assert(noise + rest =~= rest);
        assert(Seq::<u8>::empty() + after.reply =~= after.reply);
        assert(Seq::<u8>::empty() + after.data =~= after.data);
    } else {
        let p = noise + rest;
        let tail = noise.skip(1);
        assert(p[0] == noise[0]);
        reveal(rx_step);
        assert(rx_step(file, count, None, p) == rx_pass(file, count, 1, Seq::empty()));
        lemma_rx_run_unfold(file, count, None, p);
        assert(p.skip(1) =~= tail + rest);
        assert forall|i: int| 0 <= i < tail.len() implies tail[i] != ZPAD by {
            assert(tail[i] == noise[i + 1]);
        }
        lemma_rx_skips(file, count, tail, rest);
        assert(Seq::<u8>::empty() + (Seq::<u8>::empty() + after.reply) =~= Seq::<u8>::empty()
            + after.reply);
        assert(Seq::<u8>::empty() + (Seq::<u8>::empty() + after.data) =~= Seq::<u8>::empty()
            + after.data);
    }
}

/// What follows a hex header is skipped by a receiver outside a data
/// frame.
pub proof fn lemma_rx_skips_trailer(
    file: Option<Seq<u8>>,
    count: u32,
    h: Header,
    rest: Seq<u8>,
)
    ensures
        rx_run(file, count, None, h.trailer() + rest) == rx_then(
            rx_part(h.trailer().len(), Seq::empty(), Seq::empty()),
            rx_run(file, count, None, rest),
        ),
{
    lemma_rx_skips(file, count, h.trailer(), rest);
}

/// All the data that the data pump read, run after run.
pub open spec fn data_of(reads: Seq<Seq<Seq<u8>>>) -> Seq<u8>
    decreases reads.len(),
{
    if reads.len() == 0 {
        Seq::empty()
    } else {
        joined(reads[0]) + data_of(reads.skip(1))
    }
}

/// What the data pump sends, run after run, where the first run is at
/// `offset` and each other run at the end of the data before it.
pub open spec fn pumps_wire(offset: u32, reads: Seq<Seq<Seq<u8>>>) -> Seq<u8>
    decreases reads.len(),
{
    if reads.len() == 0 {
        Seq::empty()
    } else {
        pump_wire(offset, reads[0]) + pumps_wire(
            (offset + joined(reads[0]).len()) as u32,
            reads.skip(1),
        )
    }
}

/// What the receiver answers to the runs of the data pump: ZACK with the
/// count behind each window, ZRINIT to each end of a file.
pub open spec fn pumps_reply(offset: u32, reads: Seq<Seq<Seq<u8>>>) -> Seq<u8>
    decreases reads.len(),
{
    if reads.len() == 0 {
        Seq::empty()
    } else {
        let total = (offset + joined(reads[0]).len()) as u32;
        let first = if reads[0].len() == 1 {
            ready_header().wire()
        } else {
            zack_header(total).wire()
        };
        first + pumps_reply(total, reads.skip(1))
    }
}

/// A receiver with an open file takes in run after run of the data pump:
/// it keeps and counts all the data, and answers each run.
pub proof fn lemma_pumps_are_taken(
    file: Seq<u8>,
    offset: u32,
    reads: Seq<Seq<Seq<u8>>>,
    rest: Seq<u8>,
)
    requires
        forall|i: int| 0 <= i < reads.len() ==> is_pump(#[trigger] reads[i]),
        offset + data_of(reads).len() <= u32::MAX,
    ensures
        rx_run(Some(file), offset, None, pumps_wire(offset, reads) + rest) == rx_then(
            rx_part(
                pumps_wire(offset, reads).len(),
                pumps_reply(offset, reads),
                data_of(reads),
            ),
            rx_run(Some(file), (offset + data_of(reads).len()) as u32, None, rest),
        ),
    decreases reads.len(),
{
    let end = (offset + data_of(reads).len()) as u32;
    let after = rx_run(Some(file), end, None, rest);
    if reads.len() == 0 {
        assert(pumps_wire(offset, reads) + rest =~= rest);
        assert(Seq::<u8>::empty() + after.reply =~= after.reply);
        assert(Seq::<u8>::empty() + after.data =~= after.data);
    } else {
        let others = reads.skip(1);
        let total = (offset + joined(reads[0]).len()) as u32;
        let first = pump_wire(offset, reads[0]);
        let tail = pumps_wire(total, others);
        assert forall|i: int| 0 <= i < others.len() implies is_pump(#[trigger] others[i]) by {
            assert(others[i] == reads[i + 1]);
        }
        assert(pumps_wire(offset, reads) + rest =~= first + (tail + rest));
        lemma_pump_is_taken(file, offset, reads[0], tail + rest);
        lemma_pumps_are_taken(file, total, others, rest);
        let answer = if reads[0].len() == 1 {
            ready_header().wire()
        } else {
            zack_header(total).wire()
        };
        assert(answer + (pumps_reply(total, others) + after.reply) =~= pumps_reply(offset, reads)
            + after.reply);
        assert(joined(reads[0]) + (data_of(others) + after.data) =~= data_of(reads) + after.data);
    }
}

/// What the sender sends in a session, behind the ZRQINIT that opens it:
/// the name of the file, the runs of the data pump, ZFIN, and the two bytes
/// that end the session.
pub open spec fn sender_says(name: Seq<u8>, size: u32, reads: Seq<Seq<Seq<u8>>>) -> Seq<u8> {
    zfile_wire(name, size) + pumps_wire(0, reads) + zfin_header().wire() + over_and_out()
}

/// What the receiver sends in a session, behind the ZRINIT that opens it:
/// ZRINIT again in answer to ZRQINIT, ZRPOS 0 in answer to the name of the
/// file, its answers to the runs of the data pump, and ZFIN.
pub open spec fn receiver_says(reads: Seq<Seq<Seq<u8>>>) -> Seq<u8> {
    ready_header().wire() + zrpos_header(0).wire() + pumps_reply(0, reads) + zfin_header().wire()
}

/// Whether a name can be sent and received: it is not empty, has no NUL
/// and has at most 255 bytes.
pub open spec fn is_name(name: Seq<u8>) -> bool {
    &&& 0 < name.len() <= NAME_MAX
    &&& forall|i: int| 0 <= i < name.len() ==> name[i] != 0
}

/// A receiver without a file answers ZRQINIT with ZRINIT, and goes on
/// behind the header and what follows it.
pub proof fn lemma_rx_is_asked(rest: Seq<u8>)
    ensures
        rx_run(None, 0, None, zrqinit_header().wire() + rest) == rx_then(
            rx_part(zrqinit_header().wire().len(), ready_header().wire(), Seq::empty()),
            rx_run(None, 0, None, rest),
        ),
{
    let ask = zrqinit_header();
    let p = ask.wire() + rest;
    lemma_step_on_header(None, 0, ask, rest);
    lemma_rx_run_unfold(None, 0, None, p);
    let used = (ask.wire().len() - ask.trailer().len()) as nat;
    assert(p.skip(used as int) =~= ask.trailer() + rest);
    lemma_rx_skips_trailer(None, 0, ask, rest);
    let after = rx_run(None, 0, None, rest);
    assert(ready_header().wire() + (Seq::<u8>::empty() + after.reply) =~= ready_header().wire()
        + after.reply);
    assert(Seq::<u8>::empty() + (Seq::<u8>::empty() + after.data) =~= Seq::<u8>::empty()
        + after.data);
}

/// A receiver without a file, told the name of the file, answers ZRPOS 0
/// and goes on with the file open.
pub proof fn lemma_rx_is_told(name: Seq<u8>, size: u32, rest: Seq<u8>)
    requires
        is_name(name),
    ensures
        rx_run(None, 0, None, zfile_wire(name, size) + rest) == rx_then(
            rx_part(zfile_wire(name, size).len(), zrpos_header(0).wire(), Seq::empty()),
            rx_run(Some(name_field(name)), 0, None, rest),
        ),
{
    let p = zfile_wire(name, size) + rest;
    lemma_file_is_named(name, size, rest);
    lemma_rx_run_unfold(None, 0, None, p);
    assert(p.skip(zfile_wire(name, size).len() as int) =~= rest);
}

/// A receiver with an open file answers ZFIN with ZFIN, and the session
/// is over.
pub proof fn lemma_rx_is_done(file: Seq<u8>, count: u32, rest: Seq<u8>)
    ensures
        ({
            let run = rx_run(Some(file), count, None, zfin_header().wire() + rest);
            &&& run.finished
            &&& run.reply == zfin_header().wire()
            &&& run.data == Seq::<u8>::empty()
            &&& run.file == Some(file)
            &&& run.count == count
        }),
{
    let fin = zfin_header();
    lemma_step_on_header(Some(file), count, fin, rest);
    lemma_rx_run_unfold(Some(file), count, None, fin.wire() + rest);
}

/// The receiver in a session: reading what the sender sends, it sends what
/// `receiver_says`, reads all the data in order, counts it, and has the
/// file of the name open at the end.
pub proof fn lemma_receiver_session(name: Seq<u8>, size: u32, reads: Seq<Seq<Seq<u8>>>)
    requires
        is_name(name),
        forall|i: int| 0 <= i < reads.len() ==> is_pump(#[trigger] reads[i]),
        data_of(reads).len() <= u32::MAX,
    ensures
        ({
            let run = rx_run(
                None,
                0,
                None,
                zrqinit_header().wire() + sender_says(name, size, reads),
            );
            &&& run.finished
            &&& run.reply == receiver_says(reads)
            &&& run.data == data_of(reads)
            &&& run.count == data_of(reads).len()
            &&& run.file == Some(name_field(name))
        }),
{
    let file = name_field(name);
    let total = data_of(reads).len() as u32;
    let p4 = zfin_header().wire() + over_and_out();
    let p3 = pumps_wire(0, reads) + p4;
    let p2 = zfile_wire(name, size) + p3;
    let p0 = zrqinit_header().wire() + sender_says(name, size, reads);
    assert(p0 =~= zrqinit_header().wire() + p2);
    lemma_rx_is_asked(p2);
    lemma_rx_is_told(name, size, p3);
    lemma_pumps_are_taken(file, 0, reads, p4);
    lemma_rx_is_done(file, total, over_and_out());
    let r4 = rx_run(Some(file), total, None, p4);
    let r3 = rx_run(Some(file), 0, None, p3);
    let r2 = rx_run(None, 0, None, p2);
    let r0 = rx_run(None, 0, None, p0);
    assert(r3.reply =~= pumps_reply(0, reads) + zfin_header().wire());
    assert(r3.data =~= data_of(reads));
    assert(r2.reply =~= zrpos_header(0).wire() + r3.reply);
    assert(r2.data =~= r3.data);
    assert(r0.reply =~= ready_header().wire() + r2.reply);
    assert(r0.data =~= r2.data);
    assert(r0.reply =~= receiver_says(reads));
}

/// Bytes that are no ZPAD are skipped by the sender.
pub proof fn lemma_tx_skips(
    stage: Stage,
    noise: Seq<u8>,
    rest: Seq<u8>,
    name: Seq<u8>,
    size: u32,
    reads: Seq<Seq<Seq<u8>>>,
)
    requires
        forall|i: int| 0 <= i < noise.len() ==> noise[i] != ZPAD,
    ensures
        tx_run(stage, noise + rest, name, size, reads) == tx_then(
            noise.len(),
            Seq::empty(),
            0,
            tx_run(stage, rest, name, size, reads),
        ),
    decreases noise.len(),
{
    let after = tx_run(stage, rest, name, size, reads);
    if noise.len() == 0 {
        assert(noise + rest =~= rest);
        assert(Seq::<u8>::empty() + after.sent =~= after.sent);
    } else {
        let p = noise + rest;
        let tail = noise.skip(1);
        assert(p[0] == noise[0]);
        lemma_tx_run_unfold(stage, p, name, size, Seq::empty(), reads);
        assert(p.skip(1) =~= tail + rest);
        assert forall|i: int| 0 <= i < tail.len() implies tail[i] != ZPAD by {
            assert(tail[i] == noise[i + 1]);
        }
        lemma_tx_skips(stage, tail, rest, name, size, reads);
        assert(Seq::<u8>::empty() + (Seq::<u8>::empty() + after.sent) =~= Seq::<u8>::empty()
            + after.sent);
    }
}

/// A header that was sent is read by a step of the sender, which then
/// acts on it; what follows a hex header is still pending.
pub proof fn lemma_tx_reads_header(stage: Stage, h: Header, rest: Seq<u8>)
    ensures
        tx_step(stage, h.wire() + rest) == (TxStep {
            starved: false,
            used: (h.wire().len() - h.trailer().len()) as nat,
            action: tx_on_header(stage, h),
        }),
        (h.wire() + rest).skip(h.wire().len() - h.trailer().len()) == h.trailer() + rest,
        1 <= h.wire().len() - h.trailer().len() <= (h.wire() + rest).len(),
{
    lemma_header_round_trip(h, rest);
    lemma_wire_parts(h, rest);
}

/// A header that the sender answers, and what follows the header, take a
/// run to the bytes behind them; the answer is sent.
pub proof fn lemma_tx_answers(
    stage: Stage,
    h: Header,
    reply: Seq<u8>,
    rest: Seq<u8>,
    name: Seq<u8>,
    size: u32,
    reads: Seq<Seq<Seq<u8>>>,
)
    requires
        tx_on_header(stage, h) == TxAction::Reply(reply),
    ensures
        tx_run(stage, h.wire() + rest, name, size, reads) == tx_then(
            h.wire().len(),
            reply,
            0,
            tx_run(stage, rest, name, size, reads),
        ),
{
    lemma_tx_reads_header(stage, h, rest);
    lemma_tx_run_unfold(stage, h.wire() + rest, name, size, Seq::empty(), reads);
    lemma_tx_skips(stage, h.trailer(), rest, name, size, reads);
    let after = tx_run(stage, rest, name, size, reads);
    assert(reply + (Seq::<u8>::empty() + after.sent) =~= reply + after.sent);
}

/// A header on which the sender runs the data pump, and what follows the
/// header, take a run to the bytes behind them; what the data pump read is
/// sent, and the stage is `Receiving`.
pub proof fn lemma_tx_pumps(
    stage: Stage,
    h: Header,
    offset: u32,
    rest: Seq<u8>,
    name: Seq<u8>,
    size: u32,
    reads: Seq<Seq<Seq<u8>>>,
)
    requires
        tx_on_header(stage, h) == TxAction::Pump(offset),
        reads.len() > 0,
    ensures
        tx_run(stage, h.wire() + rest, name, size, reads) == tx_then(
            h.wire().len(),
            pump_wire(offset, reads[0]),
            1,
            tx_run(Stage::Receiving, rest, name, size, reads.skip(1)),
        ),
{
    lemma_tx_reads_header(stage, h, rest);
    assert(seq![reads[0]] + reads.skip(1) =~= reads);
    lemma_tx_run_unfold(stage, h.wire() + rest, name, size, reads[0], reads.skip(1));
    lemma_tx_skips(Stage::Receiving, h.trailer(), rest, name, size, reads.skip(1));
    let after = tx_run(Stage::Receiving, rest, name, size, reads.skip(1));
    assert(pump_wire(offset, reads[0]) + (Seq::<u8>::empty() + after.sent) =~= pump_wire(
        offset,
        reads[0],
    ) + after.sent);
}

/// Whether `reads` can be what the data pump reads in a session: windows
/// of data, run after run, and at last the end of the file.
pub open spec fn is_reads(reads: Seq<Seq<Seq<u8>>>) -> bool {
    &&& reads.len() >= 1
    &&& forall|i: int| 0 <= i < reads.len() ==> is_pump(#[trigger] reads[i])
    &&& forall|i: int| 0 <= i < reads.len() - 1 ==> (#[trigger] reads[i]).len() > 1
    &&& reads.last().len() == 1
}

/// The sender behind its first window: reading the answers of the receiver
/// to the runs of the data pump, and ZFIN behind them, it runs the data
/// pump at each count that is confirmed, sends ZFIN when the receiver is
/// ready again, and ends the session.
pub proof fn lemma_sender_answers(
    offset: u32,
    reads: Seq<Seq<Seq<u8>>>,
    rest: Seq<u8>,
    name: Seq<u8>,
    size: u32,
)
    requires
        is_reads(reads),
        offset + data_of(reads).len() <= u32::MAX,
    ensures
        ({
            let run = tx_run(
                Stage::Receiving,
                pumps_reply(offset, reads) + zfin_header().wire() + rest,
                name,
                size,
                reads.skip(1),
            );
            &&& run.finished
            &&& run.sent == pumps_wire((offset + joined(reads[0]).len()) as u32, reads.skip(1))
                + zfin_header().wire() + over_and_out()
            &&& run.pumps == reads.len() - 1
        }),
    decreases reads.len(),
{
    let fin = zfin_header();
    let others = reads.skip(1);
    let total = (offset + joined(reads[0]).len()) as u32;
    let p = pumps_reply(offset, reads) + fin.wire() + rest;
    assert(data_of(reads) == joined(reads[0]) + data_of(others));
    if reads.len() == 1 {
        let ready = ready_header();
        assert(others =~= Seq::<Seq<Seq<u8>>>::empty());
        assert(pumps_reply(total, others) =~= Seq::<u8>::empty());
        assert(pumps_wire(total, others) =~= Seq::<u8>::empty());
        assert(p =~= ready.wire() + (fin.wire() + rest));
        lemma_tx_answers(Stage::Receiving, ready, fin.wire(), fin.wire() + rest, name, size, others);
        lemma_tx_reads_header(Stage::Receiving, fin, rest);
        lemma_tx_run_unfold(
            Stage::Receiving,
            fin.wire() + rest,
            name,
            size,
            Seq::empty(),
            others,
        );
        let run = tx_run(Stage::Receiving, p, name, size, others);
        assert(run.sent =~= Seq::<u8>::empty() + fin.wire() + over_and_out());
    } else {
        let ack = zack_header(total);
        let behind = pumps_reply(total, others) + fin.wire() + rest;
        assert(others[0] == reads[1]);
        assert(others.last() == reads.last());
        assert forall|i: int| 0 <= i < others.len() implies is_pump(#[trigger] others[i]) by {
            assert(others[i] == reads[i + 1]);
        }
        assert forall|i: int| 0 <= i < others.len() - 1 implies (#[trigger] others[i]).len()
            > 1 by {
            assert(others[i] == reads[i + 1]);
        }
        assert(p =~= ack.wire() + behind);
        lemma_le32_value(total);
        lemma_tx_pumps(Stage::Receiving, ack, total, behind, name, size, others);
        lemma_sender_answers(total, others, rest, name, size);
        let next = (total + joined(others[0]).len()) as u32;
        let run = tx_run(Stage::Receiving, p, name, size, others);
        assert(run.sent =~= pump_wire(total, others[0]) + (pumps_wire(next, others.skip(1))
            + fin.wire() + over_and_out()));
        assert(run.sent =~= pumps_wire(total, others) + fin.wire() + over_and_out());
    }
}

/// A sender that waits names the file on ZRINIT, and goes on in the stage
/// `Ready`.
pub proof fn lemma_tx_is_invited(
    rest: Seq<u8>,
    name: Seq<u8>,
    size: u32,
    reads: Seq<Seq<Seq<u8>>>,
)
    requires
        zfile_payload(name, size).len() <= SUBPACKET_SIZE,
    ensures
        tx_run(Stage::Waiting, ready_header().wire() + rest, name, size, reads) == tx_then(
            ready_header().wire().len(),
            zfile_wire(name, size),
            0,
            tx_run(Stage::Ready, rest, name, size, reads),
        ),
{
    let ready = ready_header();
    lemma_tx_reads_header(Stage::Waiting, ready, rest);
    lemma_tx_run_unfold(Stage::Waiting, ready.wire() + rest, name, size, Seq::empty(), reads);
    lemma_tx_skips(Stage::Ready, ready.trailer(), rest, name, size, reads);
    let after = tx_run(Stage::Ready, rest, name, size, reads);
    assert(zfile_wire(name, size) + (Seq::<u8>::empty() + after.sent) =~= zfile_wire(name, size)
        + after.sent);
}

/// The sender in a session: reading what the receiver sends, it sends what
/// `sender_says`, and runs the data pump once for each of `reads`.
pub proof fn lemma_sender_session(name: Seq<u8>, size: u32, reads: Seq<Seq<Seq<u8>>>)
    requires
        zfile_payload(name, size).len() <= SUBPACKET_SIZE,
        is_reads(reads),
        data_of(reads).len() <= u32::MAX,
    ensures
        ({
            let run = tx_run(
                Stage::Waiting,
                ready_header().wire() + receiver_says(reads),
                name,
                size,
                reads,
            );
            &&& run.finished
            &&& run.sent == sender_says(name, size, reads)
            &&& run.pumps == reads.len()
        }),
{
    let ready = ready_header();
    let pos = zrpos_header(0);
    let p3 = pumps_reply(0, reads) + zfin_header().wire();
    let p2 = pos.wire() + p3;
    let p1 = ready.wire() + p2;
    let p0 = ready.wire() + receiver_says(reads);
    assert(p0 =~= ready.wire() + p1);
    lemma_tx_is_invited(p1, name, size, reads);
    lemma_tx_answers(Stage::Ready, ready, Seq::empty(), p2, name, size, reads);
    lemma_le32_value(0);
    lemma_tx_pumps(Stage::Ready, pos, 0, p3, name, size, reads);
    assert(p3 =~= pumps_reply(0, reads) + zfin_header().wire() + Seq::<u8>::empty());
    lemma_sender_answers(0, reads, Seq::empty(), name, size);
    let r3 = tx_run(Stage::Receiving, p3, name, size, reads.skip(1));
    let r2 = tx_run(Stage::Ready, p2, name, size, reads);
    let r1 = tx_run(Stage::Ready, p1, name, size, reads);
    let r0 = tx_run(Stage::Waiting, p0, name, size, reads);
    lemma_sender_session_sent(name, size, reads, r0.sent, r1.sent, r2.sent, r3.sent);
}

/// What the sender sent in a session is the sum of its parts.
proof fn lemma_sender_session_sent(
    name: Seq<u8>,
    size: u32,
    reads: Seq<Seq<Seq<u8>>>,
    s0: Seq<u8>,
    s1: Seq<u8>,
    s2: Seq<u8>,
    s3: Seq<u8>,
)
    requires
        reads.len() >= 1,
        s0 == zfile_wire(name, size) + s1,
        s1 == Seq::<u8>::empty() + s2,
        s2 == pump_wire(0, reads[0]) + s3,
        s3 == pumps_wire((0 + joined(reads[0]).len()) as u32, reads.skip(1))
            + zfin_header().wire() + over_and_out(),
    ensures
        s0 == sender_says(name, size, reads),
{
    let tail = pumps_wire((0 + joined(reads[0]).len()) as u32, reads.skip(1));
    assert(pumps_wire(0, reads) == pump_wire(0, reads[0]) + tail);
    assert(s2 =~= pumps_wire(0, reads) + zfin_header().wire() + over_and_out());
    assert(s1 =~= s2);
    assert(s0 =~= sender_says(name, size, reads));
}

/// Round trip: in a session each endpoint, reading what the other sends,
/// sends what the other reads. The sender names the file, sends what the
/// data pump reads from the source and ends the session; the receiver has
/// the file of that name open, has read all that data, in order, and has
/// counted it.
pub proof fn lemma_session_round_trip(name: Seq<u8>, size: u32, reads: Seq<Seq<Seq<u8>>>)
    requires
        is_name(name),
        is_reads(reads),
        data_of(reads).len() <= u32::MAX,
    ensures
        ({
            let sender = tx_run(
                Stage::Waiting,
                ready_header().wire() + receiver_says(reads),
                name,
                size,
                reads,
            );
            let receiver = rx_run(
                None,
                0,
                None,
                zrqinit_header().wire() + sender_says(name, size, reads),
            );
            &&& sender.finished
            &&& sender.sent == sender_says(name, size, reads)
            &&& sender.pumps == reads.len()
            &&& receiver.finished
            &&& receiver.reply == receiver_says(reads)
            &&& receiver.data == data_of(reads)
            &&& receiver.count == data_of(reads).len()
            &&& receiver.file == Some(name_field(name))
        }),
{
    lemma_decimal_len_u32(size);
    lemma_receiver_session(name, size, reads);
    lemma_sender_session(name, size, reads);
}

/// What a read of the file `file` at `at` hands out, where the source
/// holds `file` and fills the buffer as far as the file goes: at most
/// `SUBPACKET_SIZE` bytes, none at the end of the file.
pub open spec fn chunk_at(file: Seq<u8>, at: nat) -> Seq<u8> {
    if at >= file.len() {
        Seq::empty()
    } else if at + SUBPACKET_SIZE <= file.len() {
        file.subrange(at as int, (at + SUBPACKET_SIZE) as int)
    } else {
        file.subrange(at as int, file.len() as int)
    }
}

/// The chunks that the data pump reads behind its first, from `at` on,
/// where it may read `left` more chunks: one chunk after the other, until
/// one is not full.
pub open spec fn window_from(file: Seq<u8>, at: nat, left: nat) -> Seq<Seq<u8>>
    decreases left,
{
    let chunk = chunk_at(file, at);
    if left <= 1 || chunk.len() < SUBPACKET_SIZE {
        seq![chunk]
    } else {
        seq![chunk] + window_from(file, (at + SUBPACKET_SIZE) as nat, (left - 1) as nat)
    }
}

/// The chunks that one run of the data pump reads at `offset` from a source
/// that holds `file`.
pub open spec fn window_of(file: Seq<u8>, offset: nat) -> Seq<Seq<u8>> {
    let first = chunk_at(file, offset);
    if first.len() == 0 {
        seq![first]
    } else {
        seq![first] + window_from(file, (offset + first.len()) as nat, 9)
    }
}

/// The chunks that the data pump reads in a session from a source that
/// holds `file`, where each run is at the end of the data before it: the
/// windows of the file from `offset` on, and at last the end of the file.
pub open spec fn reads_of(file: Seq<u8>, offset: nat) -> Seq<Seq<Seq<u8>>>
    decreases file.len() - offset,
{
    let window = window_of(file, offset);
    let next = offset + joined(window).len();
    if offset >= file.len() || next <= offset || next > file.len() {
        seq![window]
    } else {
        seq![window] + reads_of(file, next as nat)
    }
}

/// The chunks behind the first of a window are full but for the last, are
/// at most as many as the data pump may read, and are the bytes of the file
/// from where they begin.
pub proof fn lemma_window_from(file: Seq<u8>, at: nat, left: nat)
    requires
        left >= 1,
    ensures
        ({
            let chunks = window_from(file, at, left);
            &&& 1 <= chunks.len() <= left
            &&& forall|i: int| 0 <= i < chunks.len() ==> (#[trigger] chunks[i]).len()
                <= SUBPACKET_SIZE
            &&& forall|i: int| 0 <= i < chunks.len() - 1 ==> (#[trigger] chunks[i]).len()
                == SUBPACKET_SIZE
            &&& chunks.last().len() == SUBPACKET_SIZE ==> chunks.len() == left
            &&& at + joined(chunks).len() <= file.len() || joined(chunks).len() == 0
            &&& at <= file.len() ==> joined(chunks) == file.subrange(
                at as int,
                (at + joined(chunks).len()) as int,
            )
        }),
    decreases left,
{
    let chunk = chunk_at(file, at);
    let chunks = window_from(file, at, left);
    if left <= 1 || chunk.len() < SUBPACKET_SIZE {
        assert(chunks.skip(1) =~= Seq::<Seq<u8>>::empty());
        assert(joined(chunks) =~= chunk + joined(chunks.skip(1)));
        assert(joined(chunks) =~= chunk);
    } else {
        let others = window_from(file, (at + SUBPACKET_SIZE) as nat, (left - 1) as nat);
        lemma_window_from(file, (at + SUBPACKET_SIZE) as nat, (left - 1) as nat);
        assert(chunks.skip(1) =~= others);
        assert(chunks[0] == chunk);
        assert(joined(chunks) == chunk + joined(others));
        assert forall|i: int| 0 <= i < chunks.len() implies (#[trigger] chunks[i]).len()
            <= SUBPACKET_SIZE by {
            if i > 0 {
                assert(chunks[i] == others[i - 1]);
            }
        }
        assert forall|i: int| 0 <= i < chunks.len() - 1 implies (#[trigger] chunks[i]).len()
            == SUBPACKET_SIZE by {
            if i > 0 {
                assert(chunks[i] == others[i - 1]);
            }
        }
        assert(chunks.last() == others.last());
        if at <= file.len() {
            assert(chunk + joined(others) =~= file.subrange(
                at as int,
                (at + chunk.len() + joined(others).len()) as int,
            ));
        }
    }
}

/// What the data pump reads at an offset from a source that holds a file is
/// what a run of the data pump can read, and is the bytes of the file from
/// the offset on, as far as they go.
pub proof fn lemma_window_of(file: Seq<u8>, offset: nat)
    requires
        offset <= file.len(),
    ensures
        ({
            let chunks = window_of(file, offset);
            &&& is_pump(chunks)
            &&& chunks.len() == 1 <==> offset == file.len()
            &&& offset + joined(chunks).len() <= file.len()
            &&& joined(chunks) == file.subrange(
                offset as int,
                (offset + joined(chunks).len()) as int,
            )
        }),
{
    let first = chunk_at(file, offset);
    let chunks = window_of(file, offset);
    if first.len() == 0 {
        assert(chunks.skip(1) =~= Seq::<Seq<u8>>::empty());
        assert(joined(chunks) =~= first + joined(chunks.skip(1)));
        assert(joined(chunks) =~= Seq::<u8>::empty());
        assert(file.subrange(offset as int, offset as int) =~= Seq::<u8>::empty());
    } else {
        let at = (offset + first.len()) as nat;
        let others = window_from(file, at, 9);
        lemma_window_from(file, at, 9);
        assert(chunks.skip(1) =~= others);
        assert(chunks[0] == first);
        assert(joined(chunks) == first + joined(others));
        assert forall|i: int| 0 <= i < chunks.len() implies (#[trigger] chunks[i]).len()
            <= SUBPACKET_SIZE by {
            if i > 0 {
                assert(chunks[i] == others[i - 1]);
            }
        }
        assert forall|i: int| 1 <= i < chunks.len() - 1 implies (#[trigger] chunks[i]).len()
            == SUBPACKET_SIZE by {
            assert(chunks[i] == others[i - 1]);
        }
        assert(chunks.last() == others.last());
        assert(first + joined(others) =~= file.subrange(
            offset as int,
            (offset + first.len() + joined(others).len()) as int,
        ));
    }
}

/// What the data pump reads in a session from a source that holds a file
/// is what it can read in a session, and is all the file from the offset
/// on.
pub proof fn lemma_reads_of(file: Seq<u8>, offset: nat)
    requires
        offset <= file.len(),
    ensures
        is_reads(reads_of(file, offset)),
        data_of(reads_of(file, offset)) == file.skip(offset as int),
    decreases file.len() - offset,
{
    let window = window_of(file, offset);
    let reads = reads_of(file, offset);
    lemma_window_of(file, offset);
    if offset >= file.len() {
        assert(reads.skip(1) =~= Seq::<Seq<Seq<u8>>>::empty());
        assert(data_of(reads) =~= joined(window) + data_of(reads.skip(1)));
        assert(data_of(reads) =~= file.skip(offset as int));
    } else {
        let next = (offset + joined(window).len()) as nat;
        assert(joined(window).len() >= 1) by {
            assert(window[0].len() >= 1);
            assert(joined(window) == window[0] + joined(window.skip(1)));
        }
        assert(next > offset && next <= file.len());
        let others = reads_of(file, next);
        lemma_reads_of(file, next);
        assert(reads.skip(1) =~= others);
        assert(reads[0] == window);
        assert(reads.last() == others.last());
        assert forall|i: int| 0 <= i < reads.len() implies is_pump(#[trigger] reads[i]) by {
            if i > 0 {
                assert(reads[i] == others[i - 1]);
            }
        }
        assert forall|i: int| 0 <= i < reads.len() - 1 implies (#[trigger] reads[i]).len()
            > 1 by {
            if i > 0 {
                assert(reads[i] == others[i - 1]);
            }
        }
        assert(data_of(reads) == joined(window) + data_of(others));
        assert(joined(window) + file.skip(next as int) =~= file.skip(offset as int));
    }
}

/// Round trip of a file: where the source holds `file` and fills the
/// buffer of each read as far as the file goes, the two endpoints, each
/// reading what the other sends, come to the end of the session, and the
/// receiver has read `file`, byte for byte, and has counted it.
pub proof fn lemma_file_round_trip(name: Seq<u8>, size: u32, file: Seq<u8>)
    requires
        is_name(name),
        file.len() <= u32::MAX,
    ensures
        ({
            let reads = reads_of(file, 0);
            let sender = tx_run(
                Stage::Waiting,
                ready_header().wire() + receiver_says(reads),
                name,
                size,
                reads,
            );
            let receiver = rx_run(
                None,
                0,
                None,
                zrqinit_header().wire() + sender_says(name, size, reads),
            );
            &&& sender.finished
            &&& sender.sent == sender_says(name, size, reads)
            &&& receiver.finished
            &&& receiver.reply == receiver_says(reads)
            &&& receiver.data == file
            &&& receiver.count == file.len()
            &&& receiver.file == Some(name_field(name))
        }),
{
    lemma_reads_of(file, 0);
    assert(file.skip(0) =~= file);
    lemma_session_round_trip(name, size, reads_of(file, 0));
}

} // verus!
