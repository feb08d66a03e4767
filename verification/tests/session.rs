use zmodem::file::{decimal_digits, CANCRY, CANFC32, CANFDX, CANOVIO};
use zmodem::port::read_zpad;
use zmodem::send::write_zdata;
use zmodem::subpacket::read_subpacket;
use zmodem::{
    Encoding, File, Frame, Header, InvalidData, Packet, Port, Reader, RxBuffer, Stage, Writer,
    Zrinit, XON, ZDLE, ZPAD,
};

struct Source {
    data: Vec<u8>,
    at: usize,
    reads: usize,
    fail_after: Option<usize>,
}

impl Source {
    fn new(data: Vec<u8>) -> Source {
        Source { data, at: 0, reads: 0, fail_after: None }
    }
}

impl Reader for Source {
    fn read(&mut self, buf: &mut [u8]) -> Result<u32, InvalidData> {
        if let Some(limit) = self.fail_after {
            if self.reads >= limit {
                return Err(InvalidData);
            }
        }
        self.reads += 1;
        let at = self.at.min(self.data.len());
        let n = buf.len().min(self.data.len() - at);
        buf[..n].copy_from_slice(&self.data[at..at + n]);
        self.at = at + n;
        Ok(n as u32)
    }

    fn seek(&mut self, offset: u32) -> Result<u32, InvalidData> {
        self.at = offset as usize;
        Ok(offset)
    }
}

struct Sink {
    data: Vec<u8>,
    writes: usize,
    fail_after: Option<usize>,
}

impl Sink {
    fn new() -> Sink {
        Sink { data: vec![], writes: 0, fail_after: None }
    }
}

impl Writer for Sink {
    fn write(&mut self, buf: &[u8]) -> Result<(), InvalidData> {
        if let Some(limit) = self.fail_after {
            if self.writes >= limit {
                return Err(InvalidData);
            }
        }
        self.writes += 1;
        self.data.extend_from_slice(buf);
        Ok(())
    }
}

fn port_holding(bytes: &[u8]) -> Port {
    let mut port = Port::new();
    port.feed(bytes);
    port
}

fn wire(header: &Header) -> Vec<u8> {
    let mut port = Port::new();
    header.write(&mut port).unwrap();
    port.take_outgoing()
}

fn hex(kind: Frame, count: u32) -> Vec<u8> {
    wire(&Header::new(Encoding::ZHEX, kind).with_count(count))
}

fn ready() -> Vec<u8> {
    wire(&Header::new(Encoding::ZHEX, Frame::ZRINIT).with_flags(&[0, 0, 0, 0x2a]))
}

fn payload(len: usize) -> Vec<u8> {
    (0..len).map(|i| (i * 31 + i / 256) as u8).collect()
}

/// Runs a sender and a receiver against each other, handing over at most
/// `chunk` bytes at a time, and returns what the sink took.
fn transfer(data: &[u8], chunk: usize) -> Vec<u8> {
    let mut tx = Port::new();
    let mut rx = Port::new();
    let mut source = Source::new(data.to_vec());
    let mut sink: Vec<u8> = vec![];
    let mut stage = Stage::Waiting;
    let mut state: (Option<File>, u32) = (None, 0);
    let mut stream = None;
    let mut to_rx: Vec<u8> = vec![];
    let mut to_tx: Vec<u8> = vec![];
    let mut tx_done = false;
    let mut rx_done = false;
    zmodem::write_start(&mut tx).unwrap();
    zmodem::read_start(&mut rx, &state).unwrap();
    for _ in 0..10_000_000 {
        to_rx.extend(tx.take_outgoing());
        to_tx.extend(rx.take_outgoing());
        if tx_done && rx_done {
            assert!(to_rx.ends_with(b"OO"));
            assert_eq!(state.1 as usize, data.len());
            assert!(state.0.is_some());
            return sink;
        }
        if !tx_done {
            match zmodem::write_step(&mut tx, &mut source, "test", None, &mut stage) {
                Ok(done) => tx_done = done,
                Err(_) => {
                    assert!(tx.is_starved());
                    let n = chunk.min(to_tx.len());
                    tx.feed(&to_tx[..n]);
                    to_tx.drain(..n);
                }
            }
        }
        if !rx_done {
            match zmodem::read_step(&mut rx, &mut state, &mut stream, &mut sink) {
                Ok(done) => rx_done = done,
                Err(_) => {
                    assert!(rx.is_starved());
                    let n = chunk.min(to_rx.len());
                    rx.feed(&to_rx[..n]);
                    to_rx.drain(..n);
                }
            }
        }
    }
    panic!("the session did not end");
}

#[test]
fn lib_send_recv_in_memory() {
    let data = payload(200_000);
    assert_eq!(transfer(&data, 4096), data);
}

#[test]
fn send_recv_every_octet() {
    let data: Vec<u8> = (0..=255u8).cycle().take(3 * 1024 + 5).collect();
    assert_eq!(transfer(&data, 64), data);
}

#[test]
fn send_recv_byte_by_byte() {
    let data = payload(2500);
    assert_eq!(transfer(&data, 1), data);
}

#[test]
fn send_recv_empty_file() {
    assert_eq!(transfer(&[], 100), Vec::<u8>::new());
}

#[test]
fn send_recv_whole_windows() {
    let data = payload(10 * 1024);
    assert_eq!(transfer(&data, 1000), data);
    let data = payload(9 * 1024);
    assert_eq!(transfer(&data, 1000), data);
    let data = payload(1024);
    assert_eq!(transfer(&data, 1000), data);
}

#[test]
fn zrinit_header_of_the_receiver() {
    let mut port = Port::new();
    zmodem::read_start(&mut port, &(None, 0)).unwrap();
    assert_eq!(port.outgoing(), ready().as_slice());
    assert_eq!(&ready()[..4], &[ZPAD, ZPAD, ZDLE, 0x42]);
    assert_eq!(&ready()[4..14], b"010000002a");
    assert_eq!(&ready()[18..], &[b'\r', b'\n', XON]);
}

#[test]
fn write_zrinit_places_count_and_capabilities() {
    let mut port = Port::new();
    let zrinit = Zrinit::from_bits(CANFDX | CANOVIO);
    Header::write_zrinit(&mut port, Encoding::ZBIN, zrinit, 0x1234).unwrap();
    let expected = wire(&Header::new(Encoding::ZBIN, Frame::ZRINIT).with_flags(&[0x34, 0x12, 0, 3]));
    assert_eq!(port.outgoing(), expected.as_slice());
}

#[test]
fn zrinit_bits() {
    let zrinit = Zrinit::from_bits(CANCRY | CANOVIO | CANFC32);
    assert_eq!(zrinit.bits(), 0x2a);
    assert!(zrinit.contains(CANCRY));
    assert!(zrinit.contains(CANOVIO | CANFC32));
    assert!(!zrinit.contains(CANFDX));
    assert!(!zrinit.contains(CANFDX | CANCRY));
}

#[test]
fn decimal_of_sizes() {
    assert_eq!(decimal_digits(0), b"0");
    assert_eq!(decimal_digits(7), b"7");
    assert_eq!(decimal_digits(10), b"10");
    assert_eq!(decimal_digits(1024), b"1024");
    assert_eq!(decimal_digits(u32::MAX), b"4294967295");
}

#[test]
fn write_zfile_sends_header_and_subpacket() {
    let mut port = Port::new();
    Header::write_zfile(&mut port, "test", 1234).unwrap();
    let sent = port.take_outgoing();
    port.feed(&sent);
    assert_eq!(read_zpad(&mut port), Ok(()));
    assert_eq!(Header::read(&mut port), Ok(Header::new(Encoding::ZBIN32, Frame::ZFILE)));
    let mut buf = RxBuffer::new();
    assert_eq!(read_subpacket(&mut port, Encoding::ZBIN32, &mut buf), Ok(Packet::ZCRCW));
    assert_eq!(&buf[..], b"test\x001234\x00");
}

#[test]
fn write_zfile_refuses_a_name_that_does_not_fit() {
    let mut port = Port::new();
    let name = "n".repeat(1024 - 3);
    assert_eq!(Header::write_zfile(&mut port, &name, 0), Ok(()));
    let mut port = Port::new();
    let name = "n".repeat(1024 - 2);
    assert_eq!(Header::write_zfile(&mut port, &name, 0), Err(InvalidData));
    assert!(port.outgoing().is_empty());
    let mut port = Port::new();
    let name = "n".repeat(1024 - 3);
    assert_eq!(Header::write_zfile(&mut port, &name, 10), Err(InvalidData));
    assert!(port.outgoing().is_empty());
}

fn zfile(name: &[u8], encoding: Encoding) -> Vec<u8> {
    let mut port = Port::new();
    Header::new(encoding, Frame::ZFILE).write(&mut port).unwrap();
    zmodem::subpacket::write_subpacket(&mut port, encoding, Packet::ZCRCW, name).unwrap();
    port.take_outgoing()
}

#[test]
fn read_zfile_names_the_file() {
    let mut port = Port::new();
    zmodem::subpacket::write_subpacket(&mut port, Encoding::ZBIN32, Packet::ZCRCW, b"a.txt\x0012 0 0\x00")
        .unwrap();
    let sent = port.take_outgoing();
    port.feed(&sent);
    let header = Header::new(Encoding::ZBIN32, Frame::ZFILE);
    let file = header.read_zfile(&mut port).unwrap().unwrap();
    assert_eq!(&file.name()[..5], b"a.txt");
    assert!(file.name()[5..].iter().all(|b| *b == 0));
    assert_eq!(port.outgoing(), hex(Frame::ZRPOS, 0).as_slice());
}

#[test]
fn read_zfile_answers_znak_to_a_damaged_subpacket() {
    let mut port = Port::new();
    zmodem::subpacket::write_subpacket(&mut port, Encoding::ZBIN32, Packet::ZCRCW, b"a.txt\x00").unwrap();
    let mut sent = port.take_outgoing();
    let last = sent.len() - 1;
    sent[last] ^= 1;
    port.feed(&sent);
    let header = Header::new(Encoding::ZBIN32, Frame::ZFILE);
    assert!(header.read_zfile(&mut port).unwrap().is_none());
    assert_eq!(port.outgoing(), hex(Frame::ZNAK, 0).as_slice());
}

#[test]
fn read_zfile_fails_on_a_starved_port() {
    let mut port = port_holding(&[b'a']);
    let header = Header::new(Encoding::ZBIN32, Frame::ZFILE);
    assert!(header.read_zfile(&mut port).is_err());
    assert!(port.is_starved());
    assert!(port.outgoing().is_empty());
}

#[test]
fn file_names() {
    assert!(File::from_payload(b"").is_err());
    assert!(File::from_payload(b"\x00abc").is_err());
    let file = File::from_payload(b"abc").unwrap();
    assert_eq!(&file.name()[..4], b"abc\x00");
    let file = File::from_payload(b"abc\x00def\x00").unwrap();
    assert_eq!(&file.name()[..4], b"abc\x00");
    assert!(file.name()[3..].iter().all(|b| *b == 0));
    let long = vec![b'x'; 255];
    let file = File::from_payload(&long).unwrap();
    assert_eq!(&file.name()[..255], long.as_slice());
    assert_eq!(file.name()[255], 0);
    let too_long = vec![b'x'; 256];
    assert!(File::from_payload(&too_long).is_err());
}

#[test]
fn receiver_refuses_an_empty_file_name() {
    let mut port = port_holding(&zfile(b"\x00", Encoding::ZBIN32));
    let mut state: (Option<File>, u32) = (None, 0);
    let mut stream = None;
    let mut sink: Vec<u8> = vec![];
    assert_eq!(
        zmodem::read_step(&mut port, &mut state, &mut stream, &mut sink),
        Err(InvalidData)
    );
    assert!(!port.is_starved());
    assert_eq!(port.outgoing(), hex(Frame::ZRPOS, 0).as_slice());
    assert!(state.0.is_none());
}

fn open_receiver(port: &mut Port, sink: &mut Vec<u8>) -> (Option<File>, u32) {
    let mut state: (Option<File>, u32) = (None, 0);
    let mut stream = None;
    port.feed(&zfile(b"name\x00", Encoding::ZBIN32));
    assert_eq!(zmodem::read_step(port, &mut state, &mut stream, sink), Ok(false));
    assert_eq!(port.take_outgoing(), hex(Frame::ZRPOS, 0));
    assert!(state.0.is_some());
    assert_eq!(state.1, 0);
    assert!(stream.is_none());
    state
}

#[test]
fn receiver_skips_noise_and_answers_znak() {
    let mut port = port_holding(&[0, 1, 2]);
    let mut state: (Option<File>, u32) = (None, 0);
    let mut stream = None;
    let mut sink: Vec<u8> = vec![];
    for _ in 0..3 {
        assert_eq!(zmodem::read_step(&mut port, &mut state, &mut stream, &mut sink), Ok(false));
        assert!(port.outgoing().is_empty());
    }
    assert_eq!(
        zmodem::read_step(&mut port, &mut state, &mut stream, &mut sink),
        Err(InvalidData)
    );
    assert!(port.is_starved());
    port.feed(&[ZPAD, ZDLE, 0x50]);
    assert_eq!(zmodem::read_step(&mut port, &mut state, &mut stream, &mut sink), Ok(false));
    assert_eq!(port.take_outgoing(), hex(Frame::ZNAK, 0));
}

#[test]
fn receiver_without_a_file_sends_zrinit() {
    for kind in [Frame::ZDATA, Frame::ZEOF, Frame::ZFIN, Frame::ZRQINIT, Frame::ZSINIT] {
        let mut port = port_holding(&wire(&Header::new(Encoding::ZBIN, kind)));
        let mut state: (Option<File>, u32) = (None, 0);
        let mut stream = None;
        let mut sink: Vec<u8> = vec![];
        assert_eq!(zmodem::read_step(&mut port, &mut state, &mut stream, &mut sink), Ok(false));
        assert_eq!(port.take_outgoing(), ready());
        assert!(stream.is_none());
    }
}

#[test]
fn receiver_asks_for_its_offset() {
    let mut port = Port::new();
    let mut sink: Vec<u8> = vec![];
    let mut state = open_receiver(&mut port, &mut sink);
    let mut stream = None;
    port.feed(&wire(&Header::new(Encoding::ZBIN32, Frame::ZDATA).with_count(5)));
    assert_eq!(zmodem::read_step(&mut port, &mut state, &mut stream, &mut sink), Ok(false));
    assert_eq!(port.take_outgoing(), hex(Frame::ZRPOS, 0));
    assert!(stream.is_none());
}

fn subpacket(encoding: Encoding, kind: Packet, data: &[u8]) -> Vec<u8> {
    let mut port = Port::new();
    zmodem::subpacket::write_subpacket(&mut port, encoding, kind, data).unwrap();
    port.take_outgoing()
}

#[test]
fn receiver_acts_on_each_terminator() {
    let mut port = Port::new();
    let mut sink: Vec<u8> = vec![];
    let mut state = open_receiver(&mut port, &mut sink);
    let mut stream = None;
    port.feed(&wire(&Header::new(Encoding::ZBIN32, Frame::ZDATA).with_count(0)));
    assert_eq!(zmodem::read_step(&mut port, &mut state, &mut stream, &mut sink), Ok(false));
    assert!(port.outgoing().is_empty());
    assert_eq!(stream, Some(Encoding::ZBIN32));

    port.feed(&subpacket(Encoding::ZBIN32, Packet::ZCRCG, b"abc"));
    assert_eq!(zmodem::read_step(&mut port, &mut state, &mut stream, &mut sink), Ok(false));
    assert!(port.outgoing().is_empty());
    assert_eq!(stream, Some(Encoding::ZBIN32));
    assert_eq!(state.1, 3);

    port.feed(&subpacket(Encoding::ZBIN32, Packet::ZCRCQ, b"de"));
    assert_eq!(zmodem::read_step(&mut port, &mut state, &mut stream, &mut sink), Ok(false));
    assert_eq!(port.take_outgoing(), hex(Frame::ZACK, 5));
    assert_eq!(stream, Some(Encoding::ZBIN32));

    port.feed(&subpacket(Encoding::ZBIN32, Packet::ZCRCW, b"f"));
    assert_eq!(zmodem::read_step(&mut port, &mut state, &mut stream, &mut sink), Ok(false));
    assert_eq!(port.take_outgoing(), hex(Frame::ZACK, 6));
    assert!(stream.is_none());
    assert_eq!(state.1, 6);

    port.feed(&wire(&Header::new(Encoding::ZBIN, Frame::ZDATA).with_count(6)));
    assert_eq!(zmodem::read_step(&mut port, &mut state, &mut stream, &mut sink), Ok(false));
    assert_eq!(stream, Some(Encoding::ZBIN));
    port.feed(&subpacket(Encoding::ZBIN, Packet::ZCRCE, b"gh"));
    assert_eq!(zmodem::read_step(&mut port, &mut state, &mut stream, &mut sink), Ok(false));
    assert!(port.outgoing().is_empty());
    assert!(stream.is_none());
    assert_eq!(state.1, 8);
    assert_eq!(sink, b"abcdefgh");

    port.feed(&wire(&Header::new(Encoding::ZBIN32, Frame::ZEOF).with_count(7)));
    assert_eq!(zmodem::read_step(&mut port, &mut state, &mut stream, &mut sink), Ok(false));
    assert!(port.outgoing().is_empty());
    port.feed(&wire(&Header::new(Encoding::ZBIN32, Frame::ZEOF).with_count(8)));
    assert_eq!(zmodem::read_step(&mut port, &mut state, &mut stream, &mut sink), Ok(false));
    assert_eq!(port.take_outgoing(), ready());
    port.feed(&wire(&Header::new(Encoding::ZBIN, Frame::ZSKIP)));
    assert_eq!(zmodem::read_step(&mut port, &mut state, &mut stream, &mut sink), Ok(false));
    assert!(port.outgoing().is_empty());
    port.feed(&wire(&Header::new(Encoding::ZBIN32, Frame::ZFILE)));
    assert_eq!(zmodem::read_step(&mut port, &mut state, &mut stream, &mut sink), Ok(false));
    assert!(port.outgoing().is_empty());
    assert_eq!(&state.0.as_ref().unwrap().name()[..5], b"name\x00");
    port.feed(&wire(&Header::new(Encoding::ZHEX, Frame::ZFIN)));
    let mut done = false;
    while !done {
        done = zmodem::read_step(&mut port, &mut state, &mut stream, &mut sink).unwrap();
    }
    assert_eq!(port.take_outgoing(), hex(Frame::ZFIN, 0));
    assert_eq!(state.1, 8);
}

#[test]
fn receiver_answers_zrpos_to_a_damaged_subpacket() {
    let mut port = Port::new();
    let mut sink: Vec<u8> = vec![];
    let mut state = open_receiver(&mut port, &mut sink);
    let mut stream = Some(Encoding::ZBIN32);
    let mut damaged = subpacket(Encoding::ZBIN32, Packet::ZCRCG, b"abc");
    damaged[0] ^= 1;
    port.feed(&damaged);
    assert_eq!(zmodem::read_step(&mut port, &mut state, &mut stream, &mut sink), Ok(false));
    assert_eq!(port.take_outgoing(), hex(Frame::ZRPOS, 0));
    assert!(stream.is_none());
    assert_eq!(state.1, 0);
    assert!(sink.is_empty());
}

#[test]
fn receiver_fails_where_the_sink_fails() {
    let mut input = zfile(b"name\x00", Encoding::ZBIN32);
    input.extend(wire(&Header::new(Encoding::ZBIN32, Frame::ZDATA).with_count(0)));
    input.extend(subpacket(Encoding::ZBIN32, Packet::ZCRCQ, b"hello "));
    let behind = subpacket(Encoding::ZBIN32, Packet::ZCRCW, b"world");
    input.extend(behind.clone());
    input.extend(hex(Frame::ZFIN, 0));
    let mut port = port_holding(&input);
    let mut state: (Option<File>, u32) = (None, 0);
    let mut sink = Sink::new();
    sink.fail_after = Some(1);
    assert_eq!(zmodem::read(&mut port, &mut state, &mut sink), Err(InvalidData));
    assert!(!port.is_starved());
    assert_eq!(sink.data, b"hello ");
    assert_eq!(sink.writes, 1);
    // The count is of the bytes that the sink took, and the step that the
    // sink refused is undone: its answer is not queued, its bytes are pending.
    assert_eq!(state.1, 6);
    let mut expected = ready();
    expected.extend(hex(Frame::ZRPOS, 0));
    expected.extend(hex(Frame::ZACK, 6));
    assert_eq!(port.outgoing(), expected.as_slice());
    let mut buf = RxBuffer::new();
    assert_eq!(read_subpacket(&mut port, Encoding::ZBIN32, &mut buf), Ok(Packet::ZCRCW));
    assert_eq!(&buf[..], b"world");
}

#[test]
fn read_queues_zrinit_first_whatever_follows() {
    for input in [&b""[..], &b"garbage"[..], &[ZPAD, ZDLE, 0x41][..]] {
        let mut port = port_holding(input);
        let mut state: (Option<File>, u32) = (None, 0);
        let mut sink = Sink::new();
        assert_eq!(zmodem::read(&mut port, &mut state, &mut sink), Err(InvalidData));
        assert_eq!(port.outgoing(), ready().as_slice());
        assert_eq!(state.1, 0);
        let mut port = port_holding(input);
        let mut state: (Option<File>, u32) = (None, 0);
        let mut out = vec![1];
        assert_eq!(zmodem::read_all(&mut port, &mut state, &mut out), Err(InvalidData));
        assert_eq!(port.outgoing(), ready().as_slice());
        assert_eq!(out, vec![1]);
        let mut port = port_holding(input);
        assert_eq!(zmodem::recv::recv(&mut port, &mut sink), Err(InvalidData));
        assert_eq!(port.outgoing(), ready().as_slice());
    }
}

#[test]
fn read_all_fails_behind_a_file_without_a_name() {
    let mut port = port_holding(&zfile(b"\x00", Encoding::ZBIN32));
    let mut state: (Option<File>, u32) = (None, 0);
    let mut out = vec![];
    assert_eq!(zmodem::read_all(&mut port, &mut state, &mut out), Err(InvalidData));
    assert!(!port.is_starved());
    let mut expected = ready();
    expected.extend(hex(Frame::ZRPOS, 0));
    assert_eq!(port.outgoing(), expected.as_slice());
    assert_eq!(read_zpad(&mut port), Err(InvalidData));
    assert!(port.is_starved());
}

#[test]
fn read_all_counts_what_it_appended() {
    let mut input = zfile(b"name\x00", Encoding::ZBIN32);
    input.extend(wire(&Header::new(Encoding::ZBIN32, Frame::ZDATA).with_count(0)));
    input.extend(subpacket(Encoding::ZBIN32, Packet::ZCRCG, b"hello "));
    input.extend(subpacket(Encoding::ZBIN32, Packet::ZCRCG, b"world"));
    let mut port = port_holding(&input);
    let mut state: (Option<File>, u32) = (None, 0);
    let mut out = b"> ".to_vec();
    assert_eq!(zmodem::read_all(&mut port, &mut state, &mut out), Err(InvalidData));
    assert!(port.is_starved());
    assert_eq!(out, b"> hello world");
    assert_eq!(state.1, 11);
    let mut expected = ready();
    expected.extend(hex(Frame::ZRPOS, 0));
    assert_eq!(port.outgoing(), expected.as_slice());
}

#[test]
fn write_queues_zrqinit_first_whatever_follows() {
    for input in [&b""[..], &b"garbage"[..], &[ZPAD, ZDLE, 0x41][..]] {
        let mut port = port_holding(input);
        let mut source = Source::new(b"hello".to_vec());
        assert_eq!(zmodem::write(&mut port, &mut source, "name", None), Err(InvalidData));
        assert_eq!(port.outgoing(), hex(Frame::ZRQINIT, 0).as_slice());
        assert_eq!(source.reads, 0);
    }
    assert_eq!(
        hex(Frame::ZRQINIT, 0),
        [&[ZPAD, ZPAD, ZDLE, 0x42][..], b"00000000000000", &[0x0d, 0x0a, XON]].concat()
    );
}

#[test]
fn write_names_the_file_on_zrinit_and_then_wants_bytes() {
    let mut port = port_holding(&ready());
    let mut source = Source::new(b"hello".to_vec());
    assert_eq!(zmodem::write(&mut port, &mut source, "test", None), Err(InvalidData));
    assert!(port.is_starved());
    let mut expected = hex(Frame::ZRQINIT, 0);
    expected.extend(wire(&Header::new(Encoding::ZBIN32, Frame::ZFILE)));
    expected.extend(subpacket(Encoding::ZBIN32, Packet::ZCRCW, b"test\x000\x00"));
    assert_eq!(port.outgoing(), expected.as_slice());

    let mut port = port_holding(&ready());
    assert_eq!(zmodem::write(&mut port, &mut source, "test", Some(1234)), Err(InvalidData));
    let mut expected = hex(Frame::ZRQINIT, 0);
    expected.extend(wire(&Header::new(Encoding::ZBIN32, Frame::ZFILE)));
    expected.extend(subpacket(Encoding::ZBIN32, Packet::ZCRCW, b"test\x001234\x00"));
    assert_eq!(port.outgoing(), expected.as_slice());
}

#[test]
fn write_fails_behind_the_header_where_the_source_fails() {
    let mut input = ready();
    input.extend(hex(Frame::ZRPOS, 0));
    input.extend(hex(Frame::ZFIN, 0));
    let mut port = port_holding(&input);
    let mut source = Source::new(b"hello".to_vec());
    source.fail_after = Some(0);
    assert_eq!(zmodem::write(&mut port, &mut source, "n", None), Err(InvalidData));
    assert!(!port.is_starved());
    let mut expected = hex(Frame::ZRQINIT, 0);
    expected.extend(wire(&Header::new(Encoding::ZBIN32, Frame::ZFILE)));
    expected.extend(subpacket(Encoding::ZBIN32, Packet::ZCRCW, b"n\x000\x00"));
    assert_eq!(port.outgoing(), expected.as_slice());
    // The header that asked for the data was read; what follows it is pending.
    assert_eq!(zmodem::port::read_byte(&mut port), Ok(0x0d));
}

#[test]
fn port_drops_what_was_queued_last() {
    let mut port = Port::new();
    assert_eq!(port.queued(), 0);
    port.write_all(&[1, 2, 3]);
    let queued = port.queued();
    assert_eq!(queued, 3);
    port.write_all(&[4, 5]);
    assert_eq!(port.queued(), 5);
    port.unqueue(9);
    assert_eq!(port.outgoing(), &[1, 2, 3, 4, 5]);
    port.unqueue(queued);
    assert_eq!(port.outgoing(), &[1, 2, 3]);
    port.unqueue(0);
    assert!(port.outgoing().is_empty());
}

#[test]
fn receiver_fails_where_the_count_would_pass_32_bits() {
    let mut port = Port::new();
    let mut sink: Vec<u8> = vec![];
    let mut count = u32::MAX - 2;
    port.feed(&subpacket(Encoding::ZBIN32, Packet::ZCRCW, b"abc"));
    assert_eq!(
        zmodem::recv::read_zdata(Encoding::ZBIN32, &mut count, &mut port, &mut sink),
        Err(InvalidData)
    );
    assert!(sink.is_empty());
    assert_eq!(count, u32::MAX - 2);
    let mut count = u32::MAX - 3;
    port.feed(&subpacket(Encoding::ZBIN32, Packet::ZCRCG, b"abc"));
    assert_eq!(
        zmodem::recv::read_zdata(Encoding::ZBIN32, &mut count, &mut port, &mut sink),
        Ok(true)
    );
    assert_eq!(count, u32::MAX);
}

#[test]
fn receiver_step_can_be_taken_again() {
    let whole = zfile(b"name\x00", Encoding::ZBIN32);
    for cut in 0..whole.len() {
        let mut port = port_holding(&whole[..cut]);
        let mut state: (Option<File>, u32) = (None, 0);
        let mut stream = None;
        let mut sink: Vec<u8> = vec![];
        assert_eq!(
            zmodem::read_step(&mut port, &mut state, &mut stream, &mut sink),
            Err(InvalidData)
        );
        assert!(port.is_starved());
        assert!(port.outgoing().is_empty());
        assert!(state.0.is_none());
        port.feed(&whole[cut..]);
        assert_eq!(zmodem::read_step(&mut port, &mut state, &mut stream, &mut sink), Ok(false));
        assert_eq!(port.take_outgoing(), hex(Frame::ZRPOS, 0));
        assert!(state.0.is_some());
    }
}

#[test]
fn read_runs_a_recorded_session() {
    let mut input = zfile(b"name\x00", Encoding::ZBIN32);
    input.extend(wire(&Header::new(Encoding::ZBIN32, Frame::ZDATA).with_count(0)));
    input.extend(subpacket(Encoding::ZBIN32, Packet::ZCRCG, b"hello "));
    input.extend(subpacket(Encoding::ZBIN32, Packet::ZCRCW, b"world"));
    input.extend(wire(&Header::new(Encoding::ZBIN32, Frame::ZEOF).with_count(11)));
    input.extend(hex(Frame::ZFIN, 0));
    let mut port = port_holding(&input);
    let mut state: (Option<File>, u32) = (None, 0);
    let mut sink = Sink::new();
    assert_eq!(zmodem::read(&mut port, &mut state, &mut sink), Ok(()));
    assert_eq!(sink.data, b"hello world");
    assert_eq!(state.1, 11);
    let mut expected = ready();
    expected.extend(hex(Frame::ZRPOS, 0));
    expected.extend(hex(Frame::ZACK, 11));
    expected.extend(ready());
    expected.extend(hex(Frame::ZFIN, 0));
    assert_eq!(port.outgoing(), expected.as_slice());

    let mut port = port_holding(&input[..input.len() - 3]);
    let mut state: (Option<File>, u32) = (None, 0);
    let mut sink = Sink::new();
    assert_eq!(zmodem::read(&mut port, &mut state, &mut sink), Err(InvalidData));
    assert!(port.is_starved());
    assert_eq!(state.1, 11);
}

#[test]
fn write_runs_a_recorded_session() {
    let mut input = ready();
    input.extend(hex(Frame::ZRPOS, 0));
    input.extend(hex(Frame::ZACK, 5));
    input.extend(ready());
    input.extend(hex(Frame::ZFIN, 0));
    let mut port = port_holding(&input);
    let mut source = Source::new(b"hello".to_vec());
    assert_eq!(zmodem::write(&mut port, &mut source, "name", Some(5)), Ok(()));
    let mut expected = hex(Frame::ZRQINIT, 0);
    expected.extend(wire(&Header::new(Encoding::ZBIN32, Frame::ZFILE)));
    expected.extend(subpacket(Encoding::ZBIN32, Packet::ZCRCW, b"name\x005\x00"));
    expected.extend(wire(&Header::new(Encoding::ZBIN32, Frame::ZDATA).with_count(0)));
    expected.extend(subpacket(Encoding::ZBIN32, Packet::ZCRCG, b"hello"));
    expected.extend(subpacket(Encoding::ZBIN32, Packet::ZCRCW, b""));
    expected.extend(wire(&Header::new(Encoding::ZBIN32, Frame::ZEOF).with_count(5)));
    expected.extend(hex(Frame::ZFIN, 0));
    expected.extend(b"OO");
    assert_eq!(port.outgoing(), expected.as_slice());

    let mut port = port_holding(&input[..input.len() - 3]);
    let mut source = Source::new(b"hello".to_vec());
    assert_eq!(zmodem::write(&mut port, &mut source, "name", Some(5)), Err(InvalidData));
    assert!(port.is_starved());
}

#[test]
fn sender_waits_for_zrinit() {
    let mut source = Source::new(vec![1, 2, 3]);
    for kind in [Frame::ZRPOS, Frame::ZACK, Frame::ZFIN, Frame::ZNAK] {
        let mut port = port_holding(&hex(kind, 0));
        let mut stage = Stage::Waiting;
        assert_eq!(zmodem::write_step(&mut port, &mut source, "n", None, &mut stage), Ok(false));
        assert_eq!(port.take_outgoing(), hex(Frame::ZRQINIT, 0));
        assert_eq!(stage, Stage::Waiting);
    }
    let mut port = port_holding(&ready());
    let mut stage = Stage::Waiting;
    assert_eq!(zmodem::write_step(&mut port, &mut source, "n", None, &mut stage), Ok(false));
    assert_eq!(stage, Stage::Ready);
    let mut expected = wire(&Header::new(Encoding::ZBIN32, Frame::ZFILE));
    expected.extend(subpacket(Encoding::ZBIN32, Packet::ZCRCW, b"n\x000\x00"));
    assert_eq!(port.take_outgoing(), expected);
    port.feed(&ready());
    assert_eq!(zmodem::write_step(&mut port, &mut source, "n", None, &mut stage), Ok(false));
    assert!(port.outgoing().is_empty());
    assert_eq!(stage, Stage::Ready);
}

#[test]
fn sender_answers_znak_and_skips_noise() {
    let mut source = Source::new(vec![1, 2, 3]);
    let mut port = port_holding(&[7, ZPAD, ZDLE, 0x45]);
    let mut stage = Stage::Ready;
    assert_eq!(zmodem::write_step(&mut port, &mut source, "n", None, &mut stage), Ok(false));
    assert!(port.outgoing().is_empty());
    assert_eq!(zmodem::write_step(&mut port, &mut source, "n", None, &mut stage), Ok(false));
    assert_eq!(port.take_outgoing(), hex(Frame::ZNAK, 0));
    assert_eq!(
        zmodem::write_step(&mut port, &mut source, "n", None, &mut stage),
        Err(InvalidData)
    );
    assert!(port.is_starved());
}

#[test]
fn sender_ends_the_session() {
    let mut source = Source::new(vec![1, 2, 3]);
    let mut port = port_holding(&ready());
    let mut stage = Stage::Receiving;
    assert_eq!(zmodem::write_step(&mut port, &mut source, "n", None, &mut stage), Ok(false));
    assert_eq!(port.take_outgoing(), hex(Frame::ZFIN, 0));
    port.feed(&hex(Frame::ZFIN, 0));
    for _ in 0..3 {
        assert_eq!(zmodem::write_step(&mut port, &mut source, "n", None, &mut stage), Ok(false));
        assert!(port.outgoing().is_empty());
    }
    assert_eq!(zmodem::write_step(&mut port, &mut source, "n", None, &mut stage), Ok(true));
    assert_eq!(port.take_outgoing(), b"OO");
    assert_eq!(stage, Stage::Receiving);
}

#[test]
fn sender_refuses_a_name_that_does_not_fit() {
    let mut source = Source::new(vec![1, 2, 3]);
    let mut port = port_holding(&ready());
    let mut stage = Stage::Waiting;
    let name = "n".repeat(2000);
    assert_eq!(
        zmodem::write_step(&mut port, &mut source, &name, None, &mut stage),
        Err(InvalidData)
    );
    assert!(!port.is_starved());
    assert!(port.outgoing().is_empty());
    assert_eq!(stage, Stage::Waiting);
}

fn pump(data: &[u8], offset: u32) -> Vec<u8> {
    let mut source = Source::new(data.to_vec());
    let mut port = Port::new();
    let header = Header::new(Encoding::ZHEX, Frame::ZRPOS).with_count(offset);
    write_zdata(&mut port, &mut source, &header).unwrap();
    port.take_outgoing()
}

#[test]
fn data_pump_sends_zeof_at_the_end() {
    let data = payload(100);
    assert_eq!(pump(&data, 100), wire(&Header::new(Encoding::ZBIN32, Frame::ZEOF).with_count(100)));
    assert_eq!(pump(&data, 200), wire(&Header::new(Encoding::ZBIN32, Frame::ZEOF).with_count(200)));
}

#[test]
fn data_pump_sends_the_tail() {
    let data = payload(2 * 1024 + 10);
    let mut expected = wire(&Header::new(Encoding::ZBIN32, Frame::ZDATA).with_count(1024));
    expected.extend(subpacket(Encoding::ZBIN32, Packet::ZCRCG, &data[1024..2048]));
    expected.extend(subpacket(Encoding::ZBIN32, Packet::ZCRCW, &data[2048..]));
    assert_eq!(pump(&data, 1024), expected);
    let mut expected = wire(&Header::new(Encoding::ZBIN32, Frame::ZDATA).with_count(2048));
    expected.extend(subpacket(Encoding::ZBIN32, Packet::ZCRCG, &data[2048..]));
    expected.extend(subpacket(Encoding::ZBIN32, Packet::ZCRCW, b""));
    assert_eq!(pump(&data, 2048), expected);
}

#[test]
fn data_pump_sends_ten_subpackets_at_most() {
    let data = payload(20 * 1024);
    let mut expected = wire(&Header::new(Encoding::ZBIN32, Frame::ZDATA).with_count(0));
    for i in 0..9 {
        expected.extend(subpacket(Encoding::ZBIN32, Packet::ZCRCG, &data[i * 1024..(i + 1) * 1024]));
    }
    expected.extend(subpacket(Encoding::ZBIN32, Packet::ZCRCW, &data[9 * 1024..10 * 1024]));
    assert_eq!(pump(&data, 0), expected);
}

#[test]
fn data_pump_sends_nothing_where_the_source_fails() {
    let mut source = Source::new(payload(5000));
    source.fail_after = Some(2);
    let mut port = Port::new();
    let header = Header::new(Encoding::ZHEX, Frame::ZACK).with_count(0);
    assert_eq!(write_zdata(&mut port, &mut source, &header), Err(InvalidData));
    assert!(port.outgoing().is_empty());
    let mut port = port_holding(&hex(Frame::ZACK, 0));
    let mut stage = Stage::Ready;
    let mut source = Source::new(payload(5000));
    source.fail_after = Some(0);
    assert_eq!(
        zmodem::write_step(&mut port, &mut source, "n", None, &mut stage),
        Err(InvalidData)
    );
    assert!(!port.is_starved());
    assert_eq!(stage, Stage::Ready);
}

#[test]
fn recv_counts_the_bytes() {
    let mut input = zfile(b"name\x00", Encoding::ZBIN32);
    input.extend(wire(&Header::new(Encoding::ZBIN32, Frame::ZDATA).with_count(0)));
    input.extend(subpacket(Encoding::ZBIN32, Packet::ZCRCE, b"hello"));
    input.extend(hex(Frame::ZFIN, 0));
    let mut port = port_holding(&input);
    let mut sink = Sink::new();
    assert_eq!(zmodem::recv::recv(&mut port, &mut sink), Ok(5));
    assert_eq!(sink.data, b"hello");
    let mut port = port_holding(&input[..20]);
    let mut sink = Sink::new();
    assert_eq!(zmodem::recv::recv(&mut port, &mut sink), Err(InvalidData));
}

#[test]
fn lib_send_recv() {
    let data = payload(11 * 1024 * 1024);
    assert!(transfer(&data, 1 << 16) == data);
}

#[test]
fn each_endpoint_sends_what_the_other_reads() {
    for len in [0usize, 1, 1023, 1024, 1025, 10 * 1024, 10 * 1024 + 1, 25 * 1024 + 7] {
        let data = payload(len);
        // What the receiver sends: ZRINIT, ZRINIT again on ZRQINIT, ZRPOS 0 on
        // the name, ZACK behind each window of ten subpackets, ZRINIT on the
        // end of the file, ZFIN.
        let mut to_sender = ready();
        to_sender.extend(ready());
        to_sender.extend(hex(Frame::ZRPOS, 0));
        let mut offset = 0;
        while offset < len {
            offset = len.min(offset + 10 * 1024);
            to_sender.extend(hex(Frame::ZACK, offset as u32));
        }
        to_sender.extend(ready());
        to_sender.extend(hex(Frame::ZFIN, 0));

        let mut tx = port_holding(&to_sender);
        let mut source = Source::new(data.clone());
        assert_eq!(zmodem::write(&mut tx, &mut source, "file.bin", Some(len as u32)), Ok(()));
        let to_receiver = tx.take_outgoing();

        let mut rx = port_holding(&to_receiver);
        let mut state: (Option<File>, u32) = (None, 0);
        let mut sink = Sink::new();
        assert_eq!(zmodem::read(&mut rx, &mut state, &mut sink), Ok(()));
        assert_eq!(rx.take_outgoing(), to_sender);
        assert_eq!(sink.data, data);
        assert_eq!(state.1 as usize, len);
        assert_eq!(&state.0.unwrap().name()[..9], b"file.bin\x00");
    }
}

#[test]
fn read_all_appends_the_data() {
    let mut input = zfile(b"name\x00", Encoding::ZBIN32);
    input.extend(wire(&Header::new(Encoding::ZBIN32, Frame::ZDATA).with_count(0)));
    input.extend(subpacket(Encoding::ZBIN32, Packet::ZCRCQ, b"hello "));
    input.extend(subpacket(Encoding::ZBIN32, Packet::ZCRCE, b"world"));
    input.extend(hex(Frame::ZFIN, 0));
    let mut port = port_holding(&input);
    let mut state: (Option<File>, u32) = (None, 0);
    let mut out = b"> ".to_vec();
    assert_eq!(zmodem::read_all(&mut port, &mut state, &mut out), Ok(()));
    assert_eq!(out, b"> hello world");
    assert_eq!(state.1, 11);
    let mut expected = ready();
    expected.extend(hex(Frame::ZRPOS, 0));
    expected.extend(hex(Frame::ZACK, 6));
    expected.extend(hex(Frame::ZFIN, 0));
    assert_eq!(port.outgoing(), expected.as_slice());

    let mut port = port_holding(&input[..input.len() - 4]);
    let mut state: (Option<File>, u32) = (None, 0);
    let mut out = vec![];
    assert_eq!(zmodem::read_all(&mut port, &mut state, &mut out), Err(InvalidData));
    assert!(port.is_starved());
    assert_eq!(out, b"hello world");
}

#[test]
fn chunk_len_holds_the_source_to_the_buffer() {
    assert_eq!(zmodem::send::chunk_len(0, 1024), Ok(0));
    assert_eq!(zmodem::send::chunk_len(17, 1024), Ok(17));
    assert_eq!(zmodem::send::chunk_len(1024, 1024), Ok(1024));
    assert_eq!(zmodem::send::chunk_len(1025, 1024), Err(InvalidData));
    assert_eq!(zmodem::send::chunk_len(u32::MAX, 1024), Err(InvalidData));
}

#[test]
fn is_window_tells_what_the_data_pump_can_read() {
    let full = vec![7u8; 1024];
    let short = vec![7u8; 10];
    assert!(zmodem::send::is_window(&vec![vec![]]));
    assert!(zmodem::send::is_window(&vec![short.clone(), vec![]]));
    assert!(zmodem::send::is_window(&vec![full.clone(), short.clone()]));
    assert!(zmodem::send::is_window(&vec![full.clone(); 10]));
    assert!(zmodem::send::is_window(&vec![short.clone(), full.clone(), short.clone()]));
    assert!(!zmodem::send::is_window(&vec![]));
    assert!(!zmodem::send::is_window(&vec![short.clone()]));
    assert!(!zmodem::send::is_window(&vec![vec![], vec![]]));
    assert!(!zmodem::send::is_window(&vec![full.clone(), full.clone()]));
    assert!(!zmodem::send::is_window(&vec![full.clone(), short.clone(), short.clone()]));
    assert!(!zmodem::send::is_window(&vec![full.clone(); 11]));
    assert!(!zmodem::send::is_window(&vec![vec![7u8; 1025], vec![]]));
}

#[test]
fn write_window_sends_what_the_chunks_ask_for() {
    let mut port = Port::new();
    assert_eq!(zmodem::send::write_window(&mut port, 9, &vec![vec![]]), Ok(()));
    assert_eq!(
        port.take_outgoing(),
        wire(&Header::new(Encoding::ZBIN32, Frame::ZEOF).with_count(9))
    );

    let full = vec![3u8; 1024];
    let chunks = vec![full.clone(), full.clone(), b"tail".to_vec()];
    assert_eq!(zmodem::send::write_window(&mut port, 2048, &chunks), Ok(()));
    let mut expected = wire(&Header::new(Encoding::ZBIN32, Frame::ZDATA).with_count(2048));
    expected.extend(subpacket(Encoding::ZBIN32, Packet::ZCRCG, &full));
    expected.extend(subpacket(Encoding::ZBIN32, Packet::ZCRCG, &full));
    expected.extend(subpacket(Encoding::ZBIN32, Packet::ZCRCW, b"tail"));
    assert_eq!(port.take_outgoing(), expected);

    assert_eq!(zmodem::send::write_window(&mut port, 0, &vec![]), Err(InvalidData));
    assert_eq!(zmodem::send::write_window(&mut port, 0, &vec![b"x".to_vec()]), Err(InvalidData));
    assert!(port.outgoing().is_empty());
}

#[test]
fn memory_reads_what_the_file_has() {
    let mut file = zmodem::Memory::new(b"hello world".to_vec());
    let mut buf = [0u8; 4];
    assert_eq!(Reader::read(&mut file, &mut buf), Ok(4));
    assert_eq!(&buf, b"hell");
    assert_eq!(Reader::seek(&mut file, 9), Ok(9));
    assert_eq!(Reader::read(&mut file, &mut buf), Ok(2));
    assert_eq!(&buf[..2], b"ld");
    assert_eq!(file.at, 11);
    assert_eq!(Reader::read(&mut file, &mut buf), Ok(0));
    assert_eq!(Reader::seek(&mut file, 20), Ok(20));
    assert_eq!(Reader::read(&mut file, &mut buf), Ok(0));
    assert_eq!(file.at, 20);
    assert_eq!(Reader::seek(&mut file, 0), Ok(0));
    assert_eq!(Reader::read(&mut file, &mut []), Ok(0));
    assert_eq!(file.at, 0);
    assert_eq!(file.data, b"hello world");
}

#[test]
fn data_pump_sends_the_bytes_of_a_file_in_memory() {
    let data = payload(3000);
    let mut file = zmodem::Memory::new(data.clone());
    let mut port = Port::new();
    let header = Header::new(Encoding::ZHEX, Frame::ZRPOS).with_count(1000);
    assert_eq!(write_zdata(&mut port, &mut file, &header), Ok(()));
    let mut expected = wire(&Header::new(Encoding::ZBIN32, Frame::ZDATA).with_count(1000));
    expected.extend(subpacket(Encoding::ZBIN32, Packet::ZCRCG, &data[1000..2024]));
    expected.extend(subpacket(Encoding::ZBIN32, Packet::ZCRCW, &data[2024..]));
    assert_eq!(port.take_outgoing(), expected);
    assert_eq!(file.data, data);
    assert_eq!(file.at, 3000);
}

#[test]
fn a_vector_is_a_sink_and_a_file_in_memory_a_source() {
    let data = payload(12_345);
    let mut to_sender = ready();
    to_sender.extend(ready());
    to_sender.extend(hex(Frame::ZRPOS, 0));
    to_sender.extend(hex(Frame::ZACK, 10 * 1024));
    to_sender.extend(hex(Frame::ZACK, 12_345));
    to_sender.extend(ready());
    to_sender.extend(hex(Frame::ZFIN, 0));
    let mut tx = port_holding(&to_sender);
    let mut file = zmodem::Memory::new(data.clone());
    assert_eq!(zmodem::write(&mut tx, &mut file, "m", Some(12_345)), Ok(()));
    let mut rx = port_holding(&tx.take_outgoing());
    let mut state: (Option<File>, u32) = (None, 0);
    let mut sink: Vec<u8> = b"> ".to_vec();
    assert_eq!(zmodem::read(&mut rx, &mut state, &mut sink), Ok(()));
    assert_eq!(&sink[..2], b"> ");
    assert_eq!(&sink[2..], data.as_slice());
    assert_eq!(state.1, 12_345);
    assert_eq!(rx.take_outgoing(), to_sender);
}
