//! ZMODEM file transfer protocol: the frame and subpacket codec, and the
//! two endpoints that send and receive one file over a duplex byte
//! channel.
//!
//! The engine does no I/O of its own. It reads from and writes to a
//! [`Port`], which holds the bytes of the channel in memory, and it takes
//! one step at a time: whoever owns the channel feeds the port, takes a
//! step, and sends what the port has queued.

use vstd::prelude::*;
use vstd::string::StringSliceAdditionalSpecFns;

pub mod agree;
pub mod crc;
pub mod dialogue;
pub mod escape;
pub mod file;
pub mod frame;
pub mod hexcode;
pub mod port;
pub mod recv;
pub mod send;
pub mod subpacket;
pub mod tags;

pub use crate::escape::{XON, ZDLE, ZPAD};
pub use crate::file::{File, Zrinit};
pub use crate::frame::Header;
pub use crate::port::Port;
pub use crate::recv::{read_start, read_step, Writer};
pub use crate::send::{write_start, write_step, Memory, Reader, Stage};
pub use crate::subpacket::RxBuffer;
pub use crate::tags::{Encoding, Frame, Packet};

use crate::port::{lemma_began_with, lemma_exchange_twice, lemma_undone};
use crate::recv::{
    lemma_count_never_falls, lemma_rx_run_unfold, lemma_rx_run_within_unfold, lemma_rx_step,
    open_file, ready_header, rx_goes_on, rx_run, rx_run_within, rx_sound, rx_step,
};
use crate::send::{
    is_pump, lemma_tx_reads_failed, lemma_tx_step_failed, lemma_tx_step_taken,
    lemma_tx_step_taken_from, size_sent, tx_ran, tx_ran_from, tx_reads_file, tx_run, tx_then,
    zrqinit_header, TxRun,
};

verus! {

/// The one error of the protocol engine: malformed, damaged or missing
/// data, a channel that ran dry, a source or a sink that failed.
#[derive(Clone, Copy, Debug, PartialEq, Eq, Structural)]
pub struct InvalidData;

/// Sends a file: asks for a receiver with ZRQINIT, then takes one step
/// after the other on the frames that the port holds, until the session is
/// over.
///
/// Whether it succeeds or fails, the port is that of the run of the sender
/// on the pending bytes, for the chunks that the data pump read from the
/// source: what was queued begins with ZRQINIT, and goes on with what the
/// steps of the run sent. It succeeds where the run comes to the end of the
/// session, and fails where a step of the run fails: where the port runs
/// out of bytes, where the source fails, and where name and size do not
/// fit into a subpacket. A run that comes to the end without the data pump
/// succeeds. A source that keeps account of its file keeps the file, and
/// what each run of the data pump sent are the bytes of the file from the
/// offset on that the receiver asked for.
pub fn write<F: Reader>(port: &mut Port, file: &mut F, name: &str, size: Option<u32>) -> (r:
    Result<(), InvalidData>)
    ensures
        r is Ok ==> exists|reads: Seq<Seq<Seq<u8>>>| #[trigger]
            tx_ran(*old(port), *final(port), name.spec_bytes(), size_sent(size), reads, true),
        r is Err ==> exists|reads: Seq<Seq<Seq<u8>>>| #[trigger]
            tx_ran(*old(port), *final(port), name.spec_bytes(), size_sent(size), reads, false),
        final(port).began_with(*old(port), zrqinit_header().wire()),
        tx_run(
            Stage::Waiting,
            old(port).pending(),
            name.spec_bytes(),
            size_sent(size),
            Seq::empty(),
        ).finished ==> r is Ok,
        F::keeps_account() ==> final(file).contents() == old(file).contents(),
        F::keeps_account() && r is Ok ==> exists|reads: Seq<Seq<Seq<u8>>>| #[trigger]
            tx_ran_from(
                *old(port),
                *final(port),
                name.spec_bytes(),
                size_sent(size),
                reads,
                true,
                old(file).contents(),
            ),
        F::keeps_account() && r is Err ==> exists|reads: Seq<Seq<Seq<u8>>>| #[trigger]
            tx_ran_from(
                *old(port),
                *final(port),
                name.spec_bytes(),
                size_sent(size),
                reads,
                false,
                old(file).contents(),
            ),
{
    let mut stage = Stage::Waiting;
    let ghost start = *port;
    write_start(port)?;
    let ghost name_bytes = name.spec_bytes();
    let ghost size_value = size_sent(size);
    let ghost contents = file.contents();
    let ghost mut used: nat = 0;
    let ghost mut sent: Seq<u8> = Seq::empty();
    let ghost mut reads: Seq<Seq<Seq<u8>>> = Seq::empty();
    proof {
        let p = start.pending();
        assert(p.take(0) == Seq::<u8>::empty());
        assert(p.skip(0) == p);
        assert(start.consumed() + Seq::<u8>::empty() == start.consumed());
        assert(zrqinit_header().wire() + sent == zrqinit_header().wire());
        assert forall|future: Seq<Seq<Seq<u8>>>| #[trigger]
            tx_run(Stage::Waiting, start.pending(), name_bytes, size_value, reads + future)
                == tx_then(
                used,
                sent,
                reads.len(),
                tx_run(stage, port.pending(), name_bytes, size_value, future),
            ) by {
            assert(reads + future =~= future);
            let rest = tx_run(stage, port.pending(), name_bytes, size_value, future);
            assert(sent + rest.sent =~= rest.sent);
        }
        assert forall|future: Seq<Seq<Seq<u8>>>| #[trigger]
            tx_reads_file(
                Stage::Waiting,
                start.pending(),
                name_bytes,
                size_value,
                reads + future,
                contents,
            ) == tx_reads_file(stage, port.pending(), name_bytes, size_value, future, contents) by {
            assert(reads + future =~= future);
        }
    }
    loop
        invariant
            start == *old(port),
            name_bytes == name.spec_bytes(),
            size_value == size_sent(size),
            contents == old(file).contents(),
            F::keeps_account() ==> file.contents() == contents,
            F::keeps_account() ==> forall|future: Seq<Seq<Seq<u8>>>| #[trigger]
                tx_reads_file(
                    Stage::Waiting,
                    start.pending(),
                    name_bytes,
                    size_value,
                    reads + future,
                    contents,
                ) == tx_reads_file(
                    stage,
                    port.pending(),
                    name_bytes,
                    size_value,
                    future,
                    contents,
                ),
            port.exchanged(start, used, zrqinit_header().wire() + sent),
            forall|i: int| 0 <= i < reads.len() ==> is_pump(#[trigger] reads[i]),
            reads.len() > 0 ==> !tx_run(
                Stage::Waiting,
                start.pending(),
                name_bytes,
                size_value,
                Seq::empty(),
            ).finished,
            forall|future: Seq<Seq<Seq<u8>>>| #[trigger]
                tx_run(Stage::Waiting, start.pending(), name_bytes, size_value, reads + future)
                    == tx_then(
                    used,
                    sent,
                    reads.len(),
                    tx_run(stage, port.pending(), name_bytes, size_value, future),
                ),
        decreases port.pending().len(),
    {
        let ghost before = *port;
        let ghost was = stage;
        let done = match write_step(port, file, name, size, &mut stage) {
            Ok(done) => done,
            Err(e) => {
                proof {
                    lemma_tx_step_failed(before, *port, was, stage, name_bytes, size_value);
                    let nothing = Seq::<Seq<Seq<u8>>>::empty();
                    let last = tx_run(was, before.pending(), name_bytes, size_value, nothing);
                    assert(reads + nothing =~= reads);
                    lemma_exchange_twice(
                        start,
                        before,
                        *port,
                        used,
                        zrqinit_header().wire() + sent,
                        last.used,
                        Seq::empty(),
                    );
                    assert(zrqinit_header().wire() + sent + Seq::<u8>::empty()
                        == zrqinit_header().wire() + (sent + last.sent));
                    assert(tx_ran(start, *port, name_bytes, size_value, reads, false));
                    if F::keeps_account() {
                        lemma_tx_reads_failed(
                            before,
                            *port,
                            was,
                            stage,
                            name_bytes,
                            size_value,
                            contents,
                        );
                        assert(tx_ran_from(
                            start,
                            *port,
                            name_bytes,
                            size_value,
                            reads,
                            false,
                            contents,
                        ));
                    }
                    lemma_began_with(
                        start,
                        *port,
                        used + last.used,
                        zrqinit_header().wire(),
                        sent + last.sent,
                    );
                }
                return Err(e);
            },
        };
        proof {
            let added = if F::keeps_account() {
                lemma_tx_step_taken_from(
                    before,
                    *port,
                    was,
                    stage,
                    name_bytes,
                    size_value,
                    done,
                    contents,
                )
            } else {
                lemma_tx_step_taken(before, *port, was, stage, name_bytes, size_value, done)
            };
            lemma_exchange_twice(
                start,
                before,
                *port,
                used,
                zrqinit_header().wire() + sent,
                added.used,
                added.sent,
            );
            assert(zrqinit_header().wire() + sent + added.sent == zrqinit_header().wire() + (sent
                + added.sent));
            let longer = reads + added.reads;
            if reads.len() == 0 && added.reads.len() > 0 {
                assert(reads + Seq::<Seq<Seq<u8>>>::empty() =~= Seq::<Seq<Seq<u8>>>::empty());
            }
            if done {
                let nothing = Seq::<Seq<Seq<u8>>>::empty();
                assert(reads + (added.reads + nothing) =~= longer);
                assert(tx_run(was, before.pending(), name_bytes, size_value, added.reads + nothing)
                    == (TxRun {
                    finished: true,
                    used: added.used,
                    sent: added.sent,
                    pumps: added.reads.len(),
                }));
                assert(tx_ran(start, *port, name_bytes, size_value, longer, true));
                if F::keeps_account() {
                    assert(tx_ran_from(
                        start,
                        *port,
                        name_bytes,
                        size_value,
                        longer,
                        true,
                        contents,
                    ));
                }
                lemma_began_with(
                    start,
                    *port,
                    used + added.used,
                    zrqinit_header().wire(),
                    sent + added.sent,
                );
            } else {
                assert forall|future: Seq<Seq<Seq<u8>>>| #[trigger]
                    tx_run(
                        Stage::Waiting,
                        start.pending(),
                        name_bytes,
                        size_value,
                        longer + future,
                    ) == tx_then(
                        used + added.used,
                        sent + added.sent,
                        longer.len(),
                        tx_run(stage, port.pending(), name_bytes, size_value, future),
                    ) by {
                    assert(longer + future =~= reads + (added.reads + future));
                    let rest = tx_run(stage, port.pending(), name_bytes, size_value, future);
                    assert(sent + (added.sent + rest.sent) =~= sent + added.sent + rest.sent);
                }
                if F::keeps_account() {
                    assert forall|future: Seq<Seq<Seq<u8>>>| #[trigger]
                        tx_reads_file(
                            Stage::Waiting,
                            start.pending(),
                            name_bytes,
                            size_value,
                            longer + future,
                            contents,
                        ) == tx_reads_file(
                            stage,
                            port.pending(),
                            name_bytes,
                            size_value,
                            future,
                            contents,
                        ) by {
                        assert(longer + future =~= reads + (added.reads + future));
                    }
                }
            }
            used = used + added.used;
            sent = sent + added.sent;
            reads = longer;
        }
        if done {
            return Ok(());
        }
    }
}

/// Receives a file: where no file is open it first sends ZRINIT; then it
/// takes one step after the other on the frames that the port holds, and
/// hands the data that each step read to the sink, until the session is
/// over.
///
/// Whether it succeeds or fails, what was queued begins with that ZRINIT,
/// and the count has not fallen; the port and the state are those of the
/// run as far as the sink took data, which is as far as the count has
/// grown. A step whose data the sink refuses is
/// undone: the port and the count are as they were before the step, so
/// that the count is of bytes that the sink took. A sink that keeps
/// account has taken as many bytes more as the count has grown by, and,
/// where the call succeeds, the data of the run. Succeeds only where the
/// run on the pending bytes comes to the end of the session; the port and
/// the state are then those of the run. Fails where a step fails, and so
/// where the port runs out of bytes, and where the sink refuses data; a
/// run that comes to the end and has no data for the sink succeeds.
pub fn read<F: Writer>(port: &mut Port, state: &mut (Option<File>, u32), out: &mut F) -> (r:
    Result<(), InvalidData>)
    requires
        old(state).0 is None ==> old(state).1 == 0,
    ensures
        ({
            let run = rx_run(open_file(old(state).0), old(state).1, None, old(port).pending());
            let first = if old(state).0 is None {
                ready_header().wire()
            } else {
                Seq::empty()
            };
            &&& !run.finished ==> r is Err
            &&& run.finished && run.data.len() == 0 ==> r is Ok
            &&& r is Ok ==> {
                &&& final(port).exchanged(*old(port), run.used, first + run.reply)
                &&& open_file(final(state).0) == run.file
                &&& final(state).1 == run.count
            }
            &&& final(port).began_with(*old(port), first)
            &&& ({
                let cut = rx_run_within(
                    open_file(old(state).0),
                    old(state).1,
                    None,
                    old(port).pending(),
                    (final(state).1 - old(state).1) as nat,
                );
                &&& final(port).exchanged(*old(port), cut.used, first + cut.reply)
                &&& open_file(final(state).0) == cut.file
                &&& final(state).1 == cut.count
                &&& cut.data.len() == final(state).1 - old(state).1
                &&& r is Ok ==> cut.finished
            })
            &&& F::keeps_account() ==> {
                &&& r is Ok ==> final(out).taken() == old(out).taken() + run.data
                &&& final(out).taken().len() >= old(out).taken().len()
                &&& final(state).1 == old(state).1 + (final(out).taken().len() - old(
                    out,
                ).taken().len())
            }
        }),
        final(state).1 >= old(state).1,
        final(state).0 is None ==> final(state).1 == 0,
{
    let ghost run = rx_run(open_file(state.0), state.1, None, port.pending());
    let ghost first = if state.0 is None {
        ready_header().wire()
    } else {
        Seq::empty()
    };
    read_start(port, state)?;
    let mut stream: Option<Encoding> = None;
    let ghost mut used: nat = 0;
    let ghost mut reply: Seq<u8> = Seq::empty();
    let ghost mut given: Seq<u8> = Seq::empty();
    proof {
        let p = old(port).pending();
        assert(p.take(0) == Seq::<u8>::empty());
        assert(p.skip(0) == p);
        assert(old(port).consumed() + Seq::<u8>::empty() == old(port).consumed());
        assert(first + reply == first);
        assert(reply + run.reply == run.reply);
        assert(given + run.data == run.data);
        assert(out.taken() + given == out.taken());
        assert forall|budget: nat| budget >= given.len() implies rx_goes_on(
            #[trigger] rx_run_within(
                open_file(old(state).0),
                old(state).1,
                None,
                old(port).pending(),
                budget,
            ),
            used,
            reply,
            given,
            rx_run_within(
                open_file(state.0),
                state.1,
                stream,
                port.pending(),
                (budget - given.len()) as nat,
            ),
        ) by {
            let rest = rx_run_within(open_file(state.0), state.1, stream, port.pending(), budget);
            assert(reply + rest.reply =~= rest.reply);
            assert(given + rest.data =~= rest.data);
        }
    }
    loop
        invariant
            run == rx_run(open_file(old(state).0), old(state).1, None, old(port).pending()),
            first == if old(state).0 is None {
                ready_header().wire()
            } else {
                Seq::empty()
            },
            port.exchanged(*old(port), used, first + reply),
            state.1 == old(state).1 + given.len(),
            forall|budget: nat|
                budget >= given.len() ==> rx_goes_on(
                    #[trigger] rx_run_within(
                        open_file(old(state).0),
                        old(state).1,
                        None,
                        old(port).pending(),
                        budget,
                    ),
                    used,
                    reply,
                    given,
                    rx_run_within(
                        open_file(state.0),
                        state.1,
                        stream,
                        port.pending(),
                        (budget - given.len()) as nat,
                    ),
                ),
            F::keeps_account() ==> out.taken() == old(out).taken() + given,
            rx_sound(open_file(state.0), state.1, stream),
            ({
                let rest = rx_run(open_file(state.0), state.1, stream, port.pending());
                &&& run.finished == rest.finished
                &&& run.used == used + rest.used
                &&& run.reply == reply + rest.reply
                &&& run.data == given + rest.data
                &&& run.file == rest.file
                &&& run.count == rest.count
            }),
        decreases port.pending().len(),
    {
        let ghost before = *port;
        let ghost step = rx_step(open_file(state.0), state.1, stream, port.pending());
        let ghost was = (open_file(state.0), state.1, stream);
        let ghost cut = rx_run_within(
            open_file(old(state).0),
            old(state).1,
            None,
            old(port).pending(),
            given.len(),
        );
        proof {
            lemma_rx_step(open_file(state.0), state.1, stream, port.pending());
            lemma_rx_run_unfold(open_file(state.0), state.1, stream, port.pending());
            lemma_rx_run_within_unfold(was.0, was.1, was.2, port.pending(), 0);
            assert(rx_goes_on(
                cut,
                used,
                reply,
                given,
                rx_run_within(was.0, was.1, was.2, port.pending(), 0),
            ));
        }
        let mark = port.mark();
        let queued = port.queued();
        let count = state.1;
        let mut data: Vec<u8> = Vec::new();
        let done = match read_step(port, state, &mut stream, &mut data) {
            Ok(done) => done,
            Err(e) => {
                proof {
                    assert(cut.data =~= given);
                    if step.starved {
                        assert(cut.reply =~= reply);
                        assert(port.exchanged(*old(port), used, first + reply));
                        lemma_began_with(*old(port), *port, used, first, reply);
                    } else {
                        assert(cut.reply =~= reply + step.reply);
                        lemma_exchange_twice(
                            *old(port),
                            before,
                            *port,
                            used,
                            first + reply,
                            step.used,
                            step.reply,
                        );
                        assert(first + reply + step.reply == first + (reply + step.reply));
                        lemma_began_with(
                            *old(port),
                            *port,
                            used + step.used,
                            first,
                            reply + step.reply,
                        );
                    }
                }
                return Err(e);
            },
        };
        if data.len() > 0 {
            match out.write(data.as_slice()) {
                Ok(()) => {},
                Err(e) => {
                    let ghost after = *port;
                    port.rewind(mark);
                    port.unqueue(queued);
                    state.1 = count;
                    proof {
                        lemma_undone(before, after, *port, step.used, step.reply);
                        assert(cut.data =~= given);
                        assert(cut.reply =~= reply);
                        assert(port.exchanged(*old(port), used, first + reply));
                        lemma_began_with(*old(port), *port, used, first, reply);
                    }
                    return Err(e);
                },
            }
        }
        proof {
            lemma_exchange_twice(
                *old(port),
                before,
                *port,
                used,
                first + reply,
                step.used,
                step.reply,
            );
            assert(first + reply + step.reply == first + (reply + step.reply));
            let rest = rx_run(step.file, step.count, step.stream, port.pending());
            assert(reply + (step.reply + rest.reply) == reply + step.reply + rest.reply);
            assert(given + (step.data + rest.data) == given + step.data + rest.data);
            assert(old(out).taken() + given + step.data == old(out).taken() + (given
                + step.data));
            let ahead = given + step.data;
            if done {
                let whole = rx_run_within(
                    open_file(old(state).0),
                    old(state).1,
                    None,
                    old(port).pending(),
                    ahead.len(),
                );
                lemma_rx_run_within_unfold(
                    was.0,
                    was.1,
                    was.2,
                    before.pending(),
                    step.data.len(),
                );
                assert(rx_goes_on(
                    whole,
                    used,
                    reply,
                    given,
                    rx_run_within(was.0, was.1, was.2, before.pending(), step.data.len()),
                ));
                assert(whole.finished);
                assert(whole.reply =~= reply + step.reply);
                assert(whole.data =~= ahead);
            } else {
                assert forall|budget: nat| budget >= ahead.len() implies rx_goes_on(
                    #[trigger] rx_run_within(
                        open_file(old(state).0),
                        old(state).1,
                        None,
                        old(port).pending(),
                        budget,
                    ),
                    used + step.used,
                    reply + step.reply,
                    ahead,
                    rx_run_within(
                        open_file(state.0),
                        state.1,
                        stream,
                        port.pending(),
                        (budget - ahead.len()) as nat,
                    ),
                ) by {
                    let room = (budget - given.len()) as nat;
                    lemma_rx_run_within_unfold(was.0, was.1, was.2, before.pending(), room);
                    let next = rx_run_within(
                        open_file(state.0),
                        state.1,
                        stream,
                        port.pending(),
                        (budget - ahead.len()) as nat,
                    );
                    assert(reply + (step.reply + next.reply) =~= reply + step.reply + next.reply);
                    assert(given + (step.data + next.data) =~= given + step.data + next.data);
                }
            }
            used = used + step.used;
            reply = reply + step.reply;
            given = given + step.data;
            if done {
                assert(reply + Seq::<u8>::empty() == reply);
                assert(given + Seq::<u8>::empty() == given);
            }
            lemma_began_with(*old(port), *port, used, first, reply);
        }
        if done {
            return Ok(());
        }
    }
}

/// Receives a file into memory: as `read` does, with the data appended to
/// `out` in place of a sink.
///
/// Whether it succeeds or fails, the port and the state are those of the
/// run on the pending bytes, and `out` has the data of the run behind what
/// it had: the count has grown by as many bytes as `out` has. It succeeds
/// exactly where the run comes to the end of the session.
pub fn read_all(port: &mut Port, state: &mut (Option<File>, u32), out: &mut Vec<u8>) -> (r:
    Result<(), InvalidData>)
    requires
        old(state).0 is None ==> old(state).1 == 0,
    ensures
        ({
            let run = rx_run(open_file(old(state).0), old(state).1, None, old(port).pending());
            let first = if old(state).0 is None {
                ready_header().wire()
            } else {
                Seq::empty()
            };
            &&& r is Ok <==> run.finished
            &&& final(port).exchanged(*old(port), run.used, first + run.reply)
            &&& open_file(final(state).0) == run.file
            &&& final(state).1 == run.count
            &&& final(out)@ == old(out)@ + run.data
        }),
        final(state).1 == old(state).1 + (final(out)@.len() - old(out)@.len()),
        final(state).0 is None ==> final(state).1 == 0,
{
    let ghost run = rx_run(open_file(state.0), state.1, None, port.pending());
    let ghost first = if state.0 is None {
        ready_header().wire()
    } else {
        Seq::empty()
    };
    proof {
        lemma_count_never_falls(open_file(state.0), state.1, None, port.pending());
    }
    read_start(port, state)?;
    let mut stream: Option<Encoding> = None;
    let ghost mut used: nat = 0;
    let ghost mut reply: Seq<u8> = Seq::empty();
    let ghost mut data: Seq<u8> = Seq::empty();
    proof {
        let p = old(port).pending();
        assert(p.take(0) == Seq::<u8>::empty());
        assert(p.skip(0) == p);
        assert(old(port).consumed() + Seq::<u8>::empty() == old(port).consumed());
        assert(first + reply == first);
        assert(reply + run.reply == run.reply);
        assert(data + run.data == run.data);
        assert(out@ + data == out@);
    }
    loop
        invariant
            run == rx_run(open_file(old(state).0), old(state).1, None, old(port).pending()),
            run.count == old(state).1 + run.data.len(),
            first == if old(state).0 is None {
                ready_header().wire()
            } else {
                Seq::empty()
            },
            port.exchanged(*old(port), used, first + reply),
            out@ == old(out)@ + data,
            rx_sound(open_file(state.0), state.1, stream),
            ({
                let rest = rx_run(open_file(state.0), state.1, stream, port.pending());
                &&& run.finished == rest.finished
                &&& run.used == used + rest.used
                &&& run.reply == reply + rest.reply
                &&& run.data == data + rest.data
                &&& run.file == rest.file
                &&& run.count == rest.count
            }),
        decreases port.pending().len(),
    {
        let ghost before = *port;
        let ghost step = rx_step(open_file(state.0), state.1, stream, port.pending());
        proof {
            lemma_rx_step(open_file(state.0), state.1, stream, port.pending());
            lemma_rx_run_unfold(open_file(state.0), state.1, stream, port.pending());
        }
        let done = match read_step(port, state, &mut stream, out) {
            Ok(done) => done,
            Err(e) => {
                proof {
                    assert(data + Seq::<u8>::empty() == data);
                    if step.starved {
                        assert(reply + Seq::<u8>::empty() == reply);
                        assert(port.exchanged(*old(port), used, first + reply));
                    } else {
                        lemma_exchange_twice(
                            *old(port),
                            before,
                            *port,
                            used,
                            first + reply,
                            step.used,
                            step.reply,
                        );
                        assert(first + reply + step.reply == first + (reply + step.reply));
                    }
                }
                return Err(e);
            },
        };
        proof {
            lemma_exchange_twice(
                *old(port),
                before,
                *port,
                used,
                first + reply,
                step.used,
                step.reply,
            );
            assert(first + reply + step.reply == first + (reply + step.reply));
            let rest = rx_run(step.file, step.count, step.stream, port.pending());
            assert(reply + (step.reply + rest.reply) == reply + step.reply + rest.reply);
            assert(data + (step.data + rest.data) == data + step.data + rest.data);
            assert(old(out)@ + data + step.data == old(out)@ + (data + step.data));
            used = used + step.used;
            reply = reply + step.reply;
            data = data + step.data;
            if done {
                assert(reply + Seq::<u8>::empty() == reply);
                assert(data + Seq::<u8>::empty() == data);
            }
        }
        if done {
            return Ok(());
        }
    }
}

} // verus!
