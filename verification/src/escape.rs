//! The byte codec: ZDLE escaping of octets, so that a stream survives links
//! that treat XON, XOFF, DLE and DEL specially.

use vstd::prelude::*;

verus! {

/// Pad byte that precedes every header.
pub const ZPAD: u8 = 0x2a;

/// Escape prefix: the next byte is an escaped octet or a structural token.
pub const ZDLE: u8 = 0x18;

/// Flow-control byte that follows most hex headers.
pub const XON: u8 = 0x11;

/// The byte that stands for `b` on the wire: for an octet that must be
/// escaped, what follows ZDLE; for every other octet, the octet itself.
///
/// ZDLE, and DLE, XON and XOFF with and without the eighth bit, have bit
/// 0x40 set; DEL becomes `l` and 0xff becomes `m`.
pub open spec fn escaped(b: u8) -> u8 {
    if b == 0x18 || b == 0x10 || b == 0x11 || b == 0x13 || b == 0x90 || b == 0x91 || b == 0x93 {
        (b + 0x40) as u8
    } else if b == 0x7f {
        0x6c
    } else if b == 0xff {
        0x6d
    } else {
        b
    }
}

/// Whether `b` travels as ZDLE and a second byte.
pub open spec fn needs_escape(b: u8) -> bool {
    escaped(b) != b
}

/// The octet meant by a byte that follows ZDLE. It undoes `escaped`, and
/// folds every byte of the columns 0x40..0x5f and 0xc0..0xdf into the
/// control character 0x40 below it.
pub open spec fn unescaped(b: u8) -> u8 {
    if (0x40 <= b && b <= 0x5f) || (0xc0 <= b && b <= 0xdf) {
        (b - 0x40) as u8
    } else if b == 0x6c {
        0x7f
    } else if b == 0x6d {
        0xff
    } else {
        b
    }
}

/// The bytes that carry the octet `b`.
pub open spec fn wire_form(b: u8) -> Seq<u8> {
    if needs_escape(b) {
        seq![ZDLE, escaped(b)]
    } else {
        seq![b]
    }
}

/// The bytes that carry the octets of `s`, in order.
pub open spec fn escape_seq(s: Seq<u8>) -> Seq<u8>
    decreases s.len(),
{
    if s.len() == 0 {
        Seq::empty()
    } else {
        wire_form(s[0]) + escape_seq(s.skip(1))
    }
}

/// A single octet travels as its wire form.
pub proof fn lemma_escape_seq_single(b: u8)
    ensures
        escape_seq(seq![b]) == wire_form(b),
{
    assert(seq![b].skip(1) == Seq::<u8>::empty());
    assert(escape_seq(seq![b].skip(1)) == Seq::<u8>::empty());
    assert(wire_form(b) + Seq::<u8>::empty() == wire_form(b));
}

/// Escaping distributes over concatenation.
pub proof fn lemma_escape_seq_concat(a: Seq<u8>, b: Seq<u8>)
    ensures
        escape_seq(a + b) == escape_seq(a) + escape_seq(b),
    decreases a.len(),
{
    if a.len() == 0 {
        assert(a + b == b);
        assert(escape_seq(a) + escape_seq(b) == escape_seq(b));
    } else {
        assert((a + b)[0] == a[0]);
        assert((a + b).skip(1) == a.skip(1) + b);
        lemma_escape_seq_concat(a.skip(1), b);
        assert(wire_form(a[0]) + (escape_seq(a.skip(1)) + escape_seq(b))
            == (wire_form(a[0]) + escape_seq(a.skip(1))) + escape_seq(b));
    }
}

/// An escaped sequence is at least as long as, and at most twice as long as,
/// what it carries.
pub proof fn lemma_escape_seq_len(s: Seq<u8>)
    ensures
        s.len() <= escape_seq(s).len() <= 2 * s.len(),
    decreases s.len(),
{
    if s.len() > 0 {
        lemma_escape_seq_len(s.skip(1));
    }
}

/// Where no octet of `s` needs escaping, `s` travels as it is.
pub proof fn lemma_escape_seq_plain(s: Seq<u8>)
    requires
        forall|i: int| 0 <= i < s.len() ==> !needs_escape(#[trigger] s[i]),
    ensures
        escape_seq(s) == s,
    decreases s.len(),
{
    if s.len() > 0 {
        let t = s.skip(1);
        assert forall|i: int| 0 <= i < t.len() implies !needs_escape(#[trigger] t[i]) by {
            assert(t[i] == s[i + 1]);
        }
        lemma_escape_seq_plain(t);
        assert(seq![s[0]] + t == s);
    }
}

/// What follows ZDLE for an escaped octet decodes to that octet, and is
/// neither ZDLE nor one of the four subpacket terminators.
pub proof fn lemma_unescape_inverts_escape(b: u8)
    requires
        needs_escape(b),
    ensures
        unescaped(escaped(b)) == b,
        escaped(b) != ZDLE,
        !(0x68 <= escaped(b) <= 0x6b),
{
}

/// An octet that travels as it is, is not ZDLE.
pub proof fn lemma_plain_is_not_zdle(b: u8)
    requires
        !needs_escape(b),
    ensures
        b != ZDLE,
{
}

/// No two octets share a wire form.
pub proof fn lemma_wire_form_injective(a: u8, b: u8)
    requires
        wire_form(a) == wire_form(b),
    ensures
        a == b,
{
    if needs_escape(a) {
        assert(wire_form(a)[1] == escaped(a));
        assert(wire_form(a).len() == 2);
        assert(wire_form(b).len() == 2);
        assert(wire_form(b)[1] == escaped(b));
        lemma_unescape_inverts_escape(a);
        lemma_unescape_inverts_escape(b);
    } else {
        assert(wire_form(a)[0] == a);
        assert(wire_form(a).len() == 1);
        assert(wire_form(b).len() == 1);
        assert(wire_form(b)[0] == b);
    }
}

/// The escape table: the byte that stands for `b` on the wire.
pub fn escape_byte(b: u8) -> (r: u8)
    ensures
        r == escaped(b),
{
    if b == 0x18 || b == 0x10 || b == 0x11 || b == 0x13 || b == 0x90 || b == 0x91 || b == 0x93 {
        b + 0x40
    } else if b == 0x7f {
        0x6c
    } else if b == 0xff {
        0x6d
    } else {
        b
    }
}

/// The unescape table: the octet meant by a byte that follows ZDLE.
pub fn unescape_byte(b: u8) -> (r: u8)
    ensures
        r == unescaped(b),
{
    if (0x40 <= b && b <= 0x5f) || (0xc0 <= b && b <= 0xdf) {
        b - 0x40
    } else if b == 0x6c {
        0x7f
    } else if b == 0x6d {
        0xff
    } else {
        b
    }
}

/// The wire form of an octet that must be escaped: ZDLE and the byte that
/// stands for the octet. `None` for an octet that travels as it is.
pub fn escape_u8(value: u8) -> (r: Option<[u8; 2]>)
    ensures
        match r {
            Some(pair) => needs_escape(value) && pair@ == wire_form(value),
            None => !needs_escape(value),
        },
{
    let e = escape_byte(value);
    if e != value {
        let pair = [ZDLE, e];
        assert(pair@ =~= wire_form(value));
        Some(pair)
    } else {
        None
    }
}

/// Appends the wire form of `src` to `dst`.
pub fn escape_u8_array(src: &[u8], dst: &mut Vec<u8>)
    ensures
        final(dst)@ == old(dst)@ + escape_seq(src@),
{
    let ghost before = dst@;
    let mut i: usize = 0;
    while i < src.len()
        invariant
            i <= src.len(),
            dst@ == before + escape_seq(src@.take(i as int)),
        decreases src.len() - i,
    {
        let value = src[i];
        proof {
            let head = src@.take(i as int);
            assert(src@.take(i + 1) == head + seq![value]);
            lemma_escape_seq_concat(head, seq![value]);
            lemma_escape_seq_single(value);
        }
        match escape_u8(value) {
            Some(pair) => {
                dst.extend_from_slice(pair.as_slice());
            },
            None => {
                dst.push(value);
            },
        }
        i = i + 1;
    }
    proof {
        assert(src@.take(src.len() as int) == src@);
    }
}

/// Appends the wire form of `src` to `dst` and returns how many bytes that
/// took.
pub fn escape_mem(src: &[u8], dst: &mut Vec<u8>) -> (n: usize)
    ensures
        final(dst)@ == old(dst)@ + escape_seq(src@),
        n == escape_seq(src@).len(),
{
    let start = dst.len();
    escape_u8_array(src, dst);
    dst.len() - start
}

} // verus!
