use zmodem::crc::{get_crc16, get_crc32};
use zmodem::escape::{escape_byte, escape_mem, escape_u8, escape_u8_array, unescape_byte};
use zmodem::frame::{check_crc, make_crc, new_frame};
use zmodem::port::{read_byte, read_byte_unescaped, read_octets, read_zpad};
use zmodem::subpacket::{read_subpacket, write_subpacket};
use zmodem::{Encoding, Frame, Header, InvalidData, Packet, Port, RxBuffer, XON, ZDLE, ZPAD};

fn port_holding(bytes: &[u8]) -> Port {
    let mut port = Port::new();
    port.feed(bytes);
    port
}

fn written(header: &Header) -> Vec<u8> {
    let mut port = Port::new();
    header.write(&mut port).unwrap();
    port.outgoing().to_vec()
}

#[test]
fn test_header_zbin() {
    let header = Header::new(Encoding::ZBIN, Frame::ZRQINIT).with_flags(&[0; 4]);
    assert_eq!(written(&header), vec![ZPAD, ZDLE, 0x41, 0, 0, 0, 0, 0, 0, 0]);
}

#[test]
fn test_header_zbin32() {
    let header = Header::new(Encoding::ZBIN32, Frame::ZRQINIT).with_flags(&[0; 4]);
    assert_eq!(written(&header), vec![ZPAD, ZDLE, 0x43, 0, 0, 0, 0, 0, 29, 247, 34, 198]);
}

#[test]
fn test_header_with_flags_zbin() {
    let header = Header::new(Encoding::ZBIN, Frame::ZRQINIT).with_flags(&[1, 1, 1, 1]);
    assert_eq!(written(&header), vec![ZPAD, ZDLE, 0x41, 0, 1, 1, 1, 1, 98, 148]);
}

#[test]
fn test_header_with_flags_zhex() {
    let header = Header::new(Encoding::ZHEX, Frame::ZRQINIT).with_flags(&[1, 1, 1, 1]);
    assert_eq!(
        written(&header),
        vec![
            ZPAD, ZPAD, ZDLE, 0x42, b'0', b'0', b'0', b'1', b'0', b'1', b'0', b'1', b'0', b'1',
            54, 50, 57, 52, b'\r', b'\n', XON
        ]
    );
}

#[test]
fn new_frame_appends_the_same_bytes() {
    let header = Header::new(Encoding::ZHEX, Frame::ZRQINIT).with_flags(&[1, 1, 1, 1]);
    let mut out = vec![0xaa];
    new_frame(&header, &mut out);
    assert_eq!(out[0], 0xaa);
    assert_eq!(&out[1..], written(&header).as_slice());
}

#[test]
fn hex_header_of_zack_and_zfin_has_no_xon() {
    let zack = written(&Header::new(Encoding::ZHEX, Frame::ZACK));
    assert_eq!(&zack[zack.len() - 2..], b"\r\n");
    let zfin = written(&Header::new(Encoding::ZHEX, Frame::ZFIN));
    assert_eq!(&zfin[zfin.len() - 2..], b"\r\n");
    let znak = written(&Header::new(Encoding::ZHEX, Frame::ZNAK));
    assert_eq!(&znak[znak.len() - 3..], &[b'\r', b'\n', XON]);
}

#[test]
fn header_write_escapes_flags() {
    let header = Header::new(Encoding::ZBIN, Frame::ZRINIT).with_flags(&[0x0a, 0x7f, 0x0d, 0xff]);
    assert_eq!(
        written(&header),
        vec![ZPAD, ZDLE, 0x41, 1, 0x0a, ZDLE, b'l', 0x0d, ZDLE, b'm', 0x5e, 0x6f]
    );
}

#[test]
fn test_read_zpad_one_pad() {
    assert_eq!(read_zpad(&mut port_holding(&[ZPAD, ZDLE])), Ok(()));
}

#[test]
fn test_read_zpad_two_pads() {
    assert_eq!(read_zpad(&mut port_holding(&[ZPAD, ZPAD, ZDLE])), Ok(()));
}

#[test]
fn test_read_zpad_no_pad() {
    assert_eq!(read_zpad(&mut port_holding(&[ZDLE])), Err(InvalidData));
}

#[test]
fn test_read_zpad_pad_xon() {
    assert_eq!(read_zpad(&mut port_holding(&[ZPAD, XON])), Err(InvalidData));
}

#[test]
fn test_read_zpad_two_pads_xon() {
    assert_eq!(read_zpad(&mut port_holding(&[ZPAD, ZPAD, XON])), Err(InvalidData));
}

#[test]
fn test_read_zpad_empty() {
    let mut port = port_holding(&[]);
    assert_eq!(read_zpad(&mut port), Err(InvalidData));
    assert!(port.is_starved());
}

#[test]
fn test_read_zpad_zeros() {
    let mut port = port_holding(&[0; 100]);
    assert_eq!(read_zpad(&mut port), Err(InvalidData));
    assert!(!port.is_starved());
}

#[test]
fn read_zpad_three_pads() {
    assert_eq!(read_zpad(&mut port_holding(&[ZPAD, ZPAD, ZPAD, ZDLE])), Err(InvalidData));
}

#[test]
fn read_zpad_leaves_what_follows() {
    let mut port = port_holding(&[ZPAD, ZDLE, 7]);
    assert_eq!(read_zpad(&mut port), Ok(()));
    assert_eq!(read_byte(&mut port), Ok(7));
    assert_eq!(read_byte(&mut port), Err(InvalidData));
    assert!(port.is_starved());
}

#[test]
fn test_header_read_zhex() {
    let input = [
        0x42, b'0', b'1', b'0', b'1', b'0', b'2', b'0', b'3', b'0', b'4', b'a', b'7', b'5', b'2',
    ];
    assert_eq!(
        Header::read(&mut port_holding(&input)).unwrap(),
        Header::new(Encoding::ZHEX, Frame::ZRINIT).with_flags(&[0x1, 0x2, 0x3, 0x4])
    );
}

#[test]
fn test_header_read_zhex_upper_case() {
    let input = [
        0x42, b'0', b'1', b'0', b'1', b'0', b'2', b'0', b'3', b'0', b'4', b'A', b'7', b'5', b'2',
    ];
    assert_eq!(
        Header::read(&mut port_holding(&input)).unwrap(),
        Header::new(Encoding::ZHEX, Frame::ZRINIT).with_flags(&[0x1, 0x2, 0x3, 0x4])
    );
}

#[test]
fn test_header_read_zbin() {
    let input = [0x41, 1, 0xa, 0xb, 0xc, 0xd, 0xa6, 0xcb];
    assert_eq!(
        Header::read(&mut port_holding(&input)).unwrap(),
        Header::new(Encoding::ZBIN, Frame::ZRINIT).with_flags(&[0xa, 0xb, 0xc, 0xd])
    );
}

#[test]
fn test_header_read_zbin32() {
    let input = [0x43, 1, 0xa, 0xb, 0xc, 0xd, 0x99, 0xe2, 0xae, 0x4a];
    assert_eq!(
        Header::read(&mut port_holding(&input)).unwrap(),
        Header::new(Encoding::ZBIN32, Frame::ZRINIT).with_flags(&[0xa, 0xb, 0xc, 0xd])
    );
}

#[test]
fn test_header_read_escaped() {
    let input = [0x41, 1, 0xa, ZDLE, b'l', 0xd, ZDLE, b'm', 0x5e, 0x6f];
    assert_eq!(
        Header::read(&mut port_holding(&input)).unwrap(),
        Header::new(Encoding::ZBIN, Frame::ZRINIT).with_flags(&[0xa, 0x7f, 0xd, 0xff])
    );
}

#[test]
fn header_read_refuses_unknown_encoding() {
    let mut port = port_holding(&[0x44, 1, 0xa, 0xb, 0xc, 0xd, 0xa6, 0xcb]);
    assert_eq!(Header::read(&mut port), Err(InvalidData));
    assert_eq!(read_byte(&mut port), Ok(1));
}

#[test]
fn header_read_refuses_unknown_kind() {
    let mut body = vec![20u8, 0, 0, 0, 0];
    let crc = get_crc16(&body, None);
    body.extend_from_slice(&crc);
    let mut input = vec![0x41];
    escape_u8_array(&body, &mut input);
    assert_eq!(Header::read(&mut port_holding(&input)), Err(InvalidData));
    assert_eq!(Header::parse(Encoding::ZBIN, &body), Err(InvalidData));
}

#[test]
fn header_read_refuses_bad_hex() {
    let input = [
        0x42, b'0', b'1', b'0', b'1', b'0', b'2', b'0', b'3', b'0', b'4', b'g', b'7', b'5', b'2',
    ];
    assert_eq!(Header::read(&mut port_holding(&input)), Err(InvalidData));
}

#[test]
fn header_read_starves_on_a_short_header() {
    let mut port = port_holding(&[0x41, 1, 0xa, 0xb]);
    assert_eq!(Header::read(&mut port), Err(InvalidData));
    assert!(port.is_starved());
}

#[test]
fn header_round_trip_for_every_encoding_and_kind() {
    let encodings = [Encoding::ZBIN, Encoding::ZHEX, Encoding::ZBIN32];
    for encoding in encodings {
        for tag in 0u8..20 {
            let kind = Frame::try_from(tag).unwrap();
            assert_eq!(kind.as_u8(), tag);
            for flags in [[0u8; 4], [0x18, 0x10, 0x7f, 0xff], [0x11, 0x13, 0x91, 0x0d], [1, 2, 3, 4]] {
                let header = Header::new(encoding, kind).with_flags(&flags);
                let mut port = port_holding(&written(&header));
                assert_eq!(read_zpad(&mut port), Ok(()));
                assert_eq!(Header::read(&mut port), Ok(header));
            }
        }
    }
}

#[test]
fn header_with_a_flipped_crc_bit_is_refused() {
    let header = Header::new(Encoding::ZBIN32, Frame::ZDATA).with_count(0x0102_0304);
    let mut body = vec![Frame::ZDATA.as_u8(), 4, 3, 2, 1];
    make_crc(&body.clone(), &mut body, Encoding::ZBIN32);
    assert_eq!(Header::parse(Encoding::ZBIN32, &body), Ok(header));
    for byte in 5..9 {
        for bit in 0..8 {
            let mut damaged = body.clone();
            damaged[byte] ^= 1 << bit;
            assert_eq!(Header::parse(Encoding::ZBIN32, &damaged), Err(InvalidData));
            let mut input = vec![0x43];
            escape_u8_array(&damaged, &mut input);
            assert_eq!(Header::read(&mut port_holding(&input)), Err(InvalidData));
        }
    }
}

#[test]
fn hex_header_with_a_flipped_crc_bit_is_refused() {
    let good = written(&Header::new(Encoding::ZHEX, Frame::ZRPOS).with_count(77));
    let mut port = port_holding(&good[3..]);
    assert!(Header::read(&mut port).is_ok());
    for byte in 14..18 {
        for bit in 0..8 {
            let mut damaged = good.clone();
            damaged[byte] ^= 1 << bit;
            if damaged[byte].to_ascii_lowercase() == good[byte] {
                // The other case of a hex letter stands for the same value.
                assert!(Header::read(&mut port_holding(&damaged[3..])).is_ok());
                continue;
            }
            assert_eq!(Header::read(&mut port_holding(&damaged[3..])), Err(InvalidData));
        }
    }
}

#[test]
fn count_is_little_endian() {
    let header = Header::new(Encoding::ZBIN, Frame::ZRPOS).with_count(0x0403_0201);
    assert_eq!(header.flags, [1, 2, 3, 4]);
    assert_eq!(header.count(), 0x0403_0201);
    assert_eq!(header.get_count(), 0x0403_0201);
    assert_eq!(Header::new_count(Encoding::ZBIN, Frame::ZRPOS, u32::MAX).flags, [0xff; 4]);
    assert_eq!(Header::new(Encoding::ZHEX, Frame::ZACK).count(), 0);
}

#[test]
fn header_getters() {
    let header = Header::new(Encoding::ZHEX, Frame::ZEOF);
    assert_eq!(header.encoding(), Encoding::ZHEX);
    assert_eq!(header.kind(), Frame::ZEOF);
    assert_eq!(header.frame_type(), Frame::ZEOF);
    assert_eq!(header.flags, [0; 4]);
    assert_eq!(Header::unescaped_size(Encoding::ZBIN), 8);
    assert_eq!(Header::unescaped_size(Encoding::ZBIN32), 10);
    assert_eq!(Header::unescaped_size(Encoding::ZHEX), 15);
}

#[test]
fn tags_of_the_wire() {
    assert_eq!(Encoding::ZBIN.as_u8(), 0x41);
    assert_eq!(Encoding::ZHEX.as_u8(), 0x42);
    assert_eq!(Encoding::ZBIN32.as_u8(), 0x43);
    assert_eq!(Encoding::try_from(0x42), Ok(Encoding::ZHEX));
    assert_eq!(Encoding::try_from(0x40), Err(InvalidData));
    assert_eq!(Frame::ZRQINIT.as_u8(), 0);
    assert_eq!(Frame::ZSTDERR.as_u8(), 19);
    assert_eq!(Frame::try_from(10), Ok(Frame::ZDATA));
    assert_eq!(Frame::try_from(20), Err(InvalidData));
    assert_eq!(Packet::ZCRCE.as_u8(), 0x68);
    assert_eq!(Packet::ZCRCG.as_u8(), 0x69);
    assert_eq!(Packet::ZCRCQ.as_u8(), 0x6a);
    assert_eq!(Packet::ZCRCW.as_u8(), 0x6b);
    assert_eq!(Packet::try_from(0x6a), Ok(Packet::ZCRCQ));
    assert_eq!(Packet::try_from(0x6c), Err(InvalidData));
    assert_eq!(Packet::try_from(0x67), Err(InvalidData));
}

#[test]
fn crc16_is_xmodem_high_byte_first() {
    assert_eq!(get_crc16(b"1", None), [0x26, 0x72]);
    assert_eq!(get_crc16(b"123456789", None), [0x31, 0xc3]);
    assert_eq!(get_crc16(b"12345678", Some(b'9')), [0x31, 0xc3]);
    assert_eq!(get_crc16(&[], None), [0, 0]);
}

#[test]
fn crc32_is_iso_hdlc_low_byte_first() {
    assert_eq!(get_crc32(b"1", None), [0xb7, 0xef, 0xdc, 0x83]);
    assert_eq!(get_crc32(b"123456789", None), [0x26, 0x39, 0xf4, 0xcb]);
    assert_eq!(get_crc32(b"12345678", Some(b'9')), [0x26, 0x39, 0xf4, 0xcb]);
    assert_eq!(get_crc32(&[], None), [0, 0, 0, 0]);
}

#[test]
fn make_and_check_crc() {
    let mut out = vec![9];
    assert_eq!(make_crc(b"123456789", &mut out, Encoding::ZBIN), 2);
    assert_eq!(out, vec![9, 0x31, 0xc3]);
    let mut out = vec![];
    assert_eq!(make_crc(b"123456789", &mut out, Encoding::ZHEX), 2);
    assert_eq!(out, vec![0x31, 0xc3]);
    let mut out = vec![];
    assert_eq!(make_crc(b"123456789", &mut out, Encoding::ZBIN32), 4);
    assert_eq!(out, vec![0x26, 0x39, 0xf4, 0xcb]);
    assert_eq!(check_crc(b"123456789", &[0x31, 0xc3], Encoding::ZBIN), Ok(()));
    assert_eq!(check_crc(b"123456789", &[0x31, 0xc2], Encoding::ZBIN), Err(InvalidData));
    assert_eq!(check_crc(b"123456789", &[0x31], Encoding::ZBIN), Err(InvalidData));
    assert_eq!(check_crc(b"123456789", &[0x31, 0xc3], Encoding::ZBIN32), Err(InvalidData));
    assert_eq!(check_crc(b"123456789", &[0x26, 0x39, 0xf4, 0xcb], Encoding::ZBIN32), Ok(()));
}

#[test]
fn escape_table() {
    let escaped: [(u8, u8); 9] = [
        (0x18, 0x58),
        (0x10, 0x50),
        (0x11, 0x51),
        (0x13, 0x53),
        (0x90, 0xd0),
        (0x91, 0xd1),
        (0x93, 0xd3),
        (0x7f, 0x6c),
        (0xff, 0x6d),
    ];
    for b in 0u8..=255 {
        match escaped.iter().find(|pair| pair.0 == b) {
            Some(pair) => {
                assert_eq!(escape_byte(b), pair.1);
                assert_eq!(escape_u8(b), Some([ZDLE, pair.1]));
            }
            None => {
                assert_eq!(escape_byte(b), b);
                assert_eq!(escape_u8(b), None);
            }
        }
    }
}

#[test]
fn unescape_table() {
    for b in 0u8..=255 {
        let expected = match b {
            0x40..=0x5f | 0xc0..=0xdf => b - 0x40,
            0x6c => 0x7f,
            0x6d => 0xff,
            _ => b,
        };
        assert_eq!(unescape_byte(b), expected);
    }
}

#[test]
fn unescape_inverts_escape_and_no_two_octets_share_a_wire_form() {
    let mut forms: Vec<Vec<u8>> = vec![];
    for b in 0u8..=255 {
        let e = escape_byte(b);
        if e != b {
            assert_eq!(unescape_byte(e), b);
        }
        let mut form = vec![];
        escape_u8_array(&[b], &mut form);
        assert!(!forms.contains(&form));
        forms.push(form.clone());
        let mut port = port_holding(&form);
        assert_eq!(read_byte_unescaped(&mut port), Ok(b));
        assert_eq!(read_byte(&mut port), Err(InvalidData));
    }
}

#[test]
fn escape_mem_counts_what_it_appends() {
    let mut dst = vec![1, 2];
    assert_eq!(escape_mem(&[0x00, 0x18, 0x41, 0xff], &mut dst), 6);
    assert_eq!(dst, vec![1, 2, 0x00, ZDLE, 0x58, 0x41, ZDLE, 0x6d]);
    assert_eq!(escape_mem(&[], &mut dst), 0);
    assert_eq!(dst.len(), 8);
}

#[test]
fn read_octets_undoes_escapes() {
    let mut port = port_holding(&[1, ZDLE, 0x58, ZDLE, b'm', 4, 5]);
    assert_eq!(read_octets(&mut port, 4), Ok(vec![1, 0x18, 0xff, 4]));
    assert_eq!(read_byte(&mut port), Ok(5));
    let mut port = port_holding(&[1, ZDLE]);
    assert_eq!(read_octets(&mut port, 2), Err(InvalidData));
    assert!(port.is_starved());
}

fn subpacket_round_trip(encoding: Encoding, kind: Packet, data: &[u8]) {
    let mut port = Port::new();
    write_subpacket(&mut port, encoding, kind, data).unwrap();
    let wire = port.take_outgoing();
    port.feed(&wire);
    let mut rx_buf = RxBuffer::new();
    assert_eq!(read_subpacket(&mut port, encoding, &mut rx_buf).unwrap(), kind);
    assert_eq!(&rx_buf[..], data);
    assert_eq!(read_byte(&mut port), Err(InvalidData));
}

#[test]
fn test_write_read_subpacket_empty() {
    subpacket_round_trip(Encoding::ZBIN, Packet::ZCRCE, &[]);
}

#[test]
fn test_write_read_subpacket_one_byte() {
    subpacket_round_trip(Encoding::ZBIN, Packet::ZCRCW, &[0x00]);
}

#[test]
fn test_write_read_subpacket_zbin32() {
    subpacket_round_trip(Encoding::ZBIN32, Packet::ZCRCQ, &[0, 1, 2, 3, 4, 0x60, 0x60]);
}

#[test]
fn subpacket_round_trip_of_every_octet_and_terminator() {
    let all: Vec<u8> = (0u8..=255).collect();
    for encoding in [Encoding::ZBIN, Encoding::ZBIN32] {
        for kind in [Packet::ZCRCE, Packet::ZCRCG, Packet::ZCRCQ, Packet::ZCRCW] {
            subpacket_round_trip(encoding, kind, &all);
            subpacket_round_trip(encoding, kind, &[0x18, 0x68, 0x69, 0x6a, 0x6b, 0x18]);
        }
    }
}

#[test]
fn subpacket_wire_form() {
    let mut port = Port::new();
    write_subpacket(&mut port, Encoding::ZBIN, Packet::ZCRCW, &[0x18, 1]).unwrap();
    let crc = get_crc16(&[0x18, 1], Some(0x6b));
    let mut expected = vec![ZDLE, 0x58, 1, ZDLE, 0x6b];
    escape_u8_array(&crc, &mut expected);
    assert_eq!(port.outgoing(), expected.as_slice());
}

#[test]
fn subpacket_in_hex_is_refused() {
    let mut port = Port::new();
    assert_eq!(
        write_subpacket(&mut port, Encoding::ZHEX, Packet::ZCRCW, &[1, 2, 3]),
        Err(InvalidData)
    );
    assert!(port.outgoing().is_empty());
}

#[test]
fn subpacket_with_a_flipped_crc_bit_is_refused() {
    let mut port = Port::new();
    write_subpacket(&mut port, Encoding::ZBIN32, Packet::ZCRCG, &[1, 2, 3, 4]).unwrap();
    let good = port.take_outgoing();
    assert_eq!(good.len(), 4 + 2 + 4);
    for byte in 6..10 {
        for bit in 0..8 {
            let mut damaged = good.clone();
            damaged[byte] ^= 1 << bit;
            if damaged[byte] == ZDLE {
                continue;
            }
            let mut port = port_holding(&damaged);
            let mut rx_buf = RxBuffer::new();
            rx_buf.push(9);
            assert_eq!(
                read_subpacket(&mut port, Encoding::ZBIN32, &mut rx_buf),
                Err(InvalidData)
            );
            assert_eq!(&rx_buf[..], &[9]);
        }
    }
}

#[test]
fn subpacket_is_appended_to_the_buffer() {
    let mut port = Port::new();
    write_subpacket(&mut port, Encoding::ZBIN, Packet::ZCRCG, &[5, 6]).unwrap();
    let wire = port.take_outgoing();
    port.feed(&wire);
    let mut rx_buf = RxBuffer::new();
    rx_buf.push(4);
    assert_eq!(read_subpacket(&mut port, Encoding::ZBIN, &mut rx_buf), Ok(Packet::ZCRCG));
    assert_eq!(&rx_buf[..], &[4, 5, 6]);
}

#[test]
fn subpacket_that_overflows_the_buffer_is_refused() {
    let data = vec![7u8; 2048];
    let mut port = Port::new();
    write_subpacket(&mut port, Encoding::ZBIN, Packet::ZCRCG, &data).unwrap();
    let wire = port.take_outgoing();
    port.feed(&wire);
    let mut rx_buf = RxBuffer::new();
    assert_eq!(read_subpacket(&mut port, Encoding::ZBIN, &mut rx_buf), Err(InvalidData));
    assert!(!port.is_starved());
    assert!(rx_buf.is_empty());
    subpacket_round_trip(Encoding::ZBIN, Packet::ZCRCG, &data[..2047]);
}

#[test]
fn subpacket_starves_without_its_end() {
    let mut port = Port::new();
    write_subpacket(&mut port, Encoding::ZBIN, Packet::ZCRCG, &[5, 6]).unwrap();
    let wire = port.take_outgoing();
    port.feed(&wire[..wire.len() - 1]);
    let mut rx_buf = RxBuffer::new();
    assert_eq!(read_subpacket(&mut port, Encoding::ZBIN, &mut rx_buf), Err(InvalidData));
    assert!(port.is_starved());
    assert!(rx_buf.is_empty());
}

#[test]
fn port_marks_and_rewinds() {
    let mut port = port_holding(&[1, 2, 3]);
    assert_eq!(port.mark(), 0);
    assert_eq!(read_byte(&mut port), Ok(1));
    let mark = port.mark();
    assert_eq!(mark, 1);
    assert_eq!(read_byte(&mut port), Ok(2));
    assert_eq!(read_byte(&mut port), Ok(3));
    assert_eq!(read_byte(&mut port), Err(InvalidData));
    assert!(port.is_starved());
    port.rewind(mark);
    assert!(port.is_starved());
    port.feed(&[4]);
    assert!(!port.is_starved());
    assert_eq!(port.mark(), 0);
    assert_eq!(read_octets(&mut port, 3), Ok(vec![2, 3, 4]));
    port.write_all(&[8, 9]);
    assert_eq!(port.outgoing(), &[8, 9]);
    assert_eq!(port.take_outgoing(), vec![8, 9]);
    assert!(port.outgoing().is_empty());
}
