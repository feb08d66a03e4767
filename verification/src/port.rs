//! The duplex byte channel as the codec sees it: the bytes that have come in
//! and the bytes that are to go out, both held in memory. Whoever owns the
//! real channel feeds the one and drains the other.

use vstd::prelude::*;
use crate::escape::{
    escape_seq, lemma_plain_is_not_zdle, lemma_unescape_inverts_escape, needs_escape,
    unescape_byte, unescaped, wire_form, ZDLE, ZPAD,
};
use crate::InvalidData;

verus! {

/// What reading one item from the front of some pending bytes comes to.
pub enum Scan<T> {
    /// The first `used` bytes are the item `value`.
    Done { value: T, used: nat },
    /// The bytes do not begin with an item; that showed at byte `used`.
    Bad { used: nat },
    /// The bytes ran out before the item was complete.
    Short,
}

/// One raw byte.
pub open spec fn scan_byte(s: Seq<u8>) -> Scan<u8> {
    if s.len() == 0 {
        Scan::Short
    } else {
        Scan::Done { value: s[0], used: 1 }
    }
}

/// One octet: a plain byte, or ZDLE and the byte that stands for the octet.
pub open spec fn scan_unescaped(s: Seq<u8>) -> Scan<u8> {
    if s.len() == 0 {
        Scan::Short
    } else if s[0] != ZDLE {
        Scan::Done { value: s[0], used: 1 }
    } else if s.len() < 2 {
        Scan::Short
    } else {
        Scan::Done { value: unescaped(s[1]), used: 2 }
    }
}

/// What `rest` read, behind the octets `front` that took `used` bytes.
pub open spec fn scan_after(front: Seq<u8>, used: nat, rest: Scan<Seq<u8>>) -> Scan<Seq<u8>> {
    match rest {
        Scan::Done { value: tail, used: more } => Scan::Done {
            value: front + tail,
            used: used + more,
        },
        Scan::Bad { used: more } => Scan::Bad { used: used + more },
        Scan::Short => Scan::Short,
    }
}

/// `n` octets in a row.
pub open spec fn scan_octets(s: Seq<u8>, n: nat) -> Scan<Seq<u8>>
    decreases n,
{
    if n == 0 {
        Scan::Done { value: Seq::empty(), used: 0 }
    } else {
        match scan_unescaped(s) {
            Scan::Done { value, used } => scan_after(
                seq![value],
                used,
                scan_octets(s.skip(used as int), (n - 1) as nat),
            ),
            _ => Scan::Short,
        }
    }
}

/// The sequence that opens a header: ZPAD, an optional second ZPAD, ZDLE.
pub open spec fn scan_zpad(s: Seq<u8>) -> Scan<()> {
    if s.len() == 0 {
        Scan::Short
    } else if s[0] != ZPAD {
        Scan::Bad { used: 1 }
    } else if s.len() < 2 {
        Scan::Short
    } else if s[1] == ZDLE {
        Scan::Done { value: (), used: 2 }
    } else if s[1] != ZPAD {
        Scan::Bad { used: 2 }
    } else if s.len() < 3 {
        Scan::Short
    } else if s[2] == ZDLE {
        Scan::Done { value: (), used: 3 }
    } else {
        Scan::Bad { used: 3 }
    }
}

/// The in-memory end of the channel.
pub struct Port {
    received: Vec<u8>,
    position: usize,
    outgoing: Vec<u8>,
    starved: bool,
}

impl Port {
    /// The bytes that were read since the last `feed`, oldest first.
    pub closed spec fn consumed(&self) -> Seq<u8> {
        if self.position <= self.received@.len() {
            self.received@.take(self.position as int)
        } else {
            self.received@
        }
    }

    /// The bytes that came in and were not read yet.
    pub closed spec fn pending(&self) -> Seq<u8> {
        if self.position <= self.received@.len() {
            self.received@.skip(self.position as int)
        } else {
            Seq::empty()
        }
    }

    /// The bytes that are to go out, oldest first.
    pub closed spec fn sent(&self) -> Seq<u8> {
        self.outgoing@
    }

    /// Whether the last read found nothing pending. A port that was fed
    /// since is not starved.
    pub closed spec fn starved(&self) -> bool {
        self.starved
    }

    /// `self` is `before` after `used` more pending bytes were read.
    pub open spec fn took(&self, before: Port, used: nat) -> bool {
        &&& used <= before.pending().len()
        &&& self.consumed() =~= before.consumed() + before.pending().take(used as int)
        &&& self.pending() =~= before.pending().skip(used as int)
        &&& self.sent() =~= before.sent()
    }

    /// `self` is `before` after `bytes` were queued for sending.
    pub open spec fn wrote(&self, before: Port, bytes: Seq<u8>) -> bool {
        &&& self.sent() =~= before.sent() + bytes
        &&& self.consumed() =~= before.consumed()
        &&& self.pending() =~= before.pending()
        &&& self.starved() == before.starved()
    }

    /// `self` is `before` after `used` more pending bytes were read and
    /// `reply` was queued for sending.
    pub open spec fn exchanged(&self, before: Port, used: nat, reply: Seq<u8>) -> bool {
        &&& used <= before.pending().len()
        &&& self.consumed() =~= before.consumed() + before.pending().take(used as int)
        &&& self.pending() =~= before.pending().skip(used as int)
        &&& self.sent() =~= before.sent() + reply
    }

    /// `self` is `before` after a read that ran out of bytes was undone:
    /// nothing was read and nothing was queued, and the port is starved.
    pub open spec fn underran(&self, before: Port) -> bool {
        &&& self.consumed() =~= before.consumed()
        &&& self.pending() =~= before.pending()
        &&& self.sent() =~= before.sent()
        &&& self.starved()
    }

    /// `self` is `before` after some pending bytes were read and bytes were
    /// queued that begin with `first`.
    pub open spec fn began_with(&self, before: Port, first: Seq<u8>) -> bool {
        exists|used: nat, more: Seq<u8>| #[trigger] self.exchanged(before, used, first + more)
    }

    /// A port with nothing pending and nothing to send.
    pub fn new() -> (port: Port)
        ensures
            port.consumed() == Seq::<u8>::empty(),
            port.pending() == Seq::<u8>::empty(),
            port.sent() == Seq::<u8>::empty(),
            !port.starved(),
    {
        Port { received: Vec::new(), position: 0, outgoing: Vec::new(), starved: false }
    }

    /// Takes in bytes that arrived. What was read before is forgotten, and
    /// with it every mark.
    pub fn feed(&mut self, bytes: &[u8])
        ensures
            final(self).consumed() == Seq::<u8>::empty(),
            final(self).pending() == old(self).pending() + bytes@,
            final(self).sent() == old(self).sent(),
            !final(self).starved(),
    {
        let mut kept: Vec<u8> = Vec::new();
        let mut i = self.position;
        while i < self.received.len()
            invariant
                self.position <= i,
                i <= self.received.len() || i == self.position,
                self.received == old(self).received,
                self.position == old(self).position,
                self.outgoing == old(self).outgoing,
                i <= self.received.len() ==> kept@ == self.received@.subrange(
                    self.position as int,
                    i as int,
                ),
                i > self.received.len() ==> kept@ == Seq::<u8>::empty(),
            decreases self.received.len() - i,
        {
            kept.push(self.received[i]);
            i = i + 1;
        }
        assert(kept@ == old(self).pending());
        kept.extend_from_slice(bytes);
        assert(kept@.skip(0) == kept@);
        assert(kept@.take(0) == Seq::<u8>::empty());
        self.received = kept;
        self.position = 0;
        self.starved = false;
    }

    /// Queues bytes for sending.
    pub fn write_all(&mut self, buf: &[u8])
        ensures
            final(self).wrote(*old(self), buf@),
    {
        self.outgoing.extend_from_slice(buf);
    }

    /// The bytes that are to go out.
    pub fn outgoing(&self) -> (bytes: &[u8])
        ensures
            bytes@ == self.sent(),
    {
        self.outgoing.as_slice()
    }

    /// Hands over the bytes that are to go out and leaves none queued.
    pub fn take_outgoing(&mut self) -> (bytes: Vec<u8>)
        ensures
            bytes@ == old(self).sent(),
            final(self).sent() == Seq::<u8>::empty(),
            final(self).consumed() == old(self).consumed(),
            final(self).pending() == old(self).pending(),
            final(self).starved() == old(self).starved(),
    {
        let mut bytes: Vec<u8> = Vec::new();
        bytes.append(&mut self.outgoing);
        bytes
    }

    /// How many bytes are queued: a place to `unqueue` to.
    pub fn queued(&self) -> (n: usize)
        ensures
            n == self.sent().len(),
    {
        self.outgoing.len()
    }

    /// Drops what was queued behind the first `len` bytes. A length beyond
    /// what is queued changes nothing.
    pub fn unqueue(&mut self, len: usize)
        ensures
            len <= old(self).sent().len() ==> final(self).sent() == old(self).sent().take(
                len as int,
            ),
            len > old(self).sent().len() ==> final(self).sent() == old(self).sent(),
            final(self).consumed() == old(self).consumed(),
            final(self).pending() == old(self).pending(),
            final(self).starved() == old(self).starved(),
    {
        self.outgoing.truncate(len);
        assert(old(self).sent().subrange(0, len as int) =~= old(self).sent().take(len as int));
    }

    /// Whether the last read found nothing pending.
    pub fn is_starved(&self) -> (b: bool)
        ensures
            b == self.starved(),
    {
        self.starved
    }

    /// How many bytes were read since the last `feed`: a place to `rewind` to.
    pub fn mark(&self) -> (m: usize)
        ensures
            m == self.consumed().len(),
    {
        if self.position <= self.received.len() {
            self.position
        } else {
            self.received.len()
        }
    }

    /// Makes the bytes read since `mark` pending again. A mark beyond what
    /// was read changes nothing.
    pub fn rewind(&mut self, mark: usize)
        ensures
            mark <= old(self).consumed().len() ==> {
                &&& final(self).consumed() == old(self).consumed().take(mark as int)
                &&& final(self).pending() == old(self).consumed().skip(mark as int) + old(
                    self,
                ).pending()
            },
            mark > old(self).consumed().len() ==> {
                &&& final(self).consumed() == old(self).consumed()
                &&& final(self).pending() == old(self).pending()
            },
            final(self).sent() == old(self).sent(),
            final(self).starved() == old(self).starved(),
    {
        if mark <= self.mark() {
            self.position = mark;
        }
    }
}

/// Whether a port is starved after a read that took `used` bytes and did
/// not run out of them.
pub open spec fn starved_after(before: Port, used: nat) -> bool {
    used == 0 && before.starved()
}

/// What a read that came to `scan` on the pending bytes returns and leaves
/// behind: the item and the port behind it; or an error and the port behind
/// the byte that showed it; or, where the bytes ran out, an error and a
/// starved port with nothing pending.
pub open spec fn reads<T>(before: Port, after: Port, scan: Scan<T>, r: Result<T, InvalidData>) -> bool {
    match scan {
        Scan::Done { value, used } => {
            &&& r == Ok::<T, InvalidData>(value)
            &&& after.took(before, used)
            &&& after.starved() == starved_after(before, used)
        },
        Scan::Bad { used } => {
            &&& r is Err
            &&& after.took(before, used)
            &&& after.starved() == starved_after(before, used)
        },
        Scan::Short => {
            &&& r is Err
            &&& after.took(before, before.pending().len())
            &&& after.starved()
        },
    }
}

/// Reads one raw byte.
pub fn read_byte(port: &mut Port) -> (r: Result<u8, InvalidData>)
    ensures
        reads(*old(port), *final(port), scan_byte(old(port).pending()), r),
{
    if port.position < port.received.len() {
        let b = port.received[port.position];
        port.position = port.position + 1;
        port.starved = false;
        proof {
            let all = port.received@;
            let at = old(port).position as int;
            assert(all.take(at + 1) == all.take(at) + all.skip(at).take(1));
            assert(all.skip(at + 1) == all.skip(at).skip(1));
        }
        Ok(b)
    } else {
        port.starved = true;
        proof {
            let p = old(port).pending();
            assert(p.take(0) == Seq::<u8>::empty());
            assert(p.skip(0) == p);
            assert(old(port).consumed() + Seq::<u8>::empty() == old(port).consumed());
        }
        Err(InvalidData)
    }
}

/// Reading `first` bytes and then `second` more is reading them all.
pub proof fn lemma_took_chain(a: Port, b: Port, c: Port, first: nat, second: nat)
    requires
        b.took(a, first),
        c.took(b, second),
    ensures
        c.took(a, first + second),
{
    let p = a.pending();
    assert(p.skip(first as int).skip(second as int) == p.skip((first + second) as int));
    assert(p.take(first as int) + p.skip(first as int).take(second as int) == p.take(
        (first + second) as int,
    ));
    assert(a.consumed() + p.take(first as int) + p.skip(first as int).take(second as int)
        == a.consumed() + (p.take(first as int) + p.skip(first as int).take(second as int)));
}

/// Reading `first` bytes and then all the rest is reading all.
pub proof fn lemma_took_rest(a: Port, b: Port, c: Port, first: nat)
    requires
        b.took(a, first),
        c.took(b, b.pending().len()),
    ensures
        c.took(a, a.pending().len()),
{
    lemma_took_chain(a, b, c, first, b.pending().len());
}

/// Reading `first` bytes, then reading `second` more and queueing `reply`,
/// is reading them all and queueing `reply`.
pub proof fn lemma_exchange_chain(a: Port, b: Port, c: Port, first: nat, second: nat, reply: Seq<u8>)
    requires
        b.took(a, first),
        c.exchanged(b, second, reply),
    ensures
        c.exchanged(a, first + second, reply),
{
    let p = a.pending();
    assert(p.skip(first as int).skip(second as int) == p.skip((first + second) as int));
    assert(p.take(first as int) + p.skip(first as int).take(second as int) == p.take(
        (first + second) as int,
    ));
    assert(a.consumed() + p.take(first as int) + p.skip(first as int).take(second as int)
        == a.consumed() + (p.take(first as int) + p.skip(first as int).take(second as int)));
    assert(a.sent() + reply == b.sent() + reply);
}

/// Two exchanges in a row are one: of all the bytes read, and of both
/// replies in order.
pub proof fn lemma_exchange_twice(
    a: Port,
    b: Port,
    c: Port,
    first: nat,
    answer: Seq<u8>,
    second: nat,
    reply: Seq<u8>,
)
    requires
        b.exchanged(a, first, answer),
        c.exchanged(b, second, reply),
    ensures
        c.exchanged(a, first + second, answer + reply),
{
    let p = a.pending();
    assert(p.skip(first as int).skip(second as int) == p.skip((first + second) as int));
    assert(p.take(first as int) + p.skip(first as int).take(second as int) == p.take(
        (first + second) as int,
    ));
    assert(a.consumed() + p.take(first as int) + p.skip(first as int).take(second as int)
        == a.consumed() + (p.take(first as int) + p.skip(first as int).take(second as int)));
    assert(a.sent() + answer + reply == a.sent() + (answer + reply));
}

/// Reading bytes and then queueing `reply` is an exchange.
pub proof fn lemma_took_wrote(a: Port, b: Port, c: Port, used: nat, reply: Seq<u8>)
    requires
        b.took(a, used),
        c.wrote(b, reply),
    ensures
        c.exchanged(a, used, reply),
{
}

/// Reading bytes and queueing nothing is an exchange of nothing.
pub proof fn lemma_took_silent(a: Port, b: Port, used: nat)
    requires
        b.took(a, used),
    ensures
        b.exchanged(a, used, Seq::empty()),
{
    assert(a.sent() + Seq::<u8>::empty() == a.sent());
}

/// A port that read all that was pending, rewound to where it stood
/// before, has what it had.
pub proof fn lemma_rewound(a: Port, b: Port, c: Port)
    requires
        b.took(a, a.pending().len()),
        b.starved(),
        c.consumed() == b.consumed().take(a.consumed().len() as int),
        c.pending() == b.consumed().skip(a.consumed().len() as int) + b.pending(),
        c.sent() == b.sent(),
        c.starved() == b.starved(),
    ensures
        c.underran(a),
{
    let p = a.pending();
    assert(p.take(p.len() as int) == p);
    assert(p.skip(p.len() as int) == Seq::<u8>::empty());
    assert(b.consumed() == a.consumed() + p);
    assert((a.consumed() + p).take(a.consumed().len() as int) == a.consumed());
    assert((a.consumed() + p).skip(a.consumed().len() as int) == p);
    assert(p + Seq::<u8>::empty() == p);
}

/// A port that took a step, rewound to where it stood before and with
/// what the step queued dropped, has what it had.
pub proof fn lemma_undone(a: Port, b: Port, c: Port, used: nat, reply: Seq<u8>)
    requires
        b.exchanged(a, used, reply),
        c.consumed() == b.consumed().take(a.consumed().len() as int),
        c.pending() == b.consumed().skip(a.consumed().len() as int) + b.pending(),
        c.sent() == b.sent().take(a.sent().len() as int),
    ensures
        c.consumed() == a.consumed(),
        c.pending() == a.pending(),
        c.sent() == a.sent(),
{
    let p = a.pending();
    let front = p.take(used as int);
    assert(b.consumed() == a.consumed() + front);
    assert((a.consumed() + front).take(a.consumed().len() as int) =~= a.consumed());
    assert((a.consumed() + front).skip(a.consumed().len() as int) =~= front);
    assert(front + p.skip(used as int) =~= p);
    assert((a.sent() + reply).take(a.sent().len() as int) =~= a.sent());
}

/// What was queued as `first` and more begins with `first`.
pub proof fn lemma_began_with(a: Port, b: Port, used: nat, first: Seq<u8>, more: Seq<u8>)
    requires
        b.exchanged(a, used, first + more),
    ensures
        b.began_with(a, first),
{
}

/// Reads one octet, undoing its escape where it has one.
pub fn read_byte_unescaped(port: &mut Port) -> (r: Result<u8, InvalidData>)
    ensures
        reads(*old(port), *final(port), scan_unescaped(old(port).pending()), r),
{
    let b = read_byte(port)?;
    if b == ZDLE {
        let ghost mid = *port;
        match read_byte(port) {
            Ok(e) => {
                proof {
                    lemma_took_chain(*old(port), mid, *port, 1, 1);
                }
                Ok(unescape_byte(e))
            },
            Err(e) => {
                proof {
                    lemma_took_rest(*old(port), mid, *port, 1);
                }
                Err(e)
            },
        }
    } else {
        Ok(b)
    }
}

/// Skips the sequence that opens a header: ZPAD, an optional second ZPAD,
/// ZDLE.
pub fn read_zpad(port: &mut Port) -> (r: Result<(), InvalidData>)
    ensures
        reads(*old(port), *final(port), scan_zpad(old(port).pending()), r),
{
    if read_byte(port)? != ZPAD {
        return Err(InvalidData);
    }
    let ghost one = *port;
    let mut b = match read_byte(port) {
        Ok(b) => b,
        Err(e) => {
            proof {
                lemma_took_rest(*old(port), one, *port, 1);
            }
            return Err(e);
        },
    };
    proof {
        lemma_took_chain(*old(port), one, *port, 1, 1);
    }
    if b == ZPAD {
        let ghost two = *port;
        b = match read_byte(port) {
            Ok(b) => b,
            Err(e) => {
                proof {
                    lemma_took_rest(*old(port), two, *port, 2);
                }
                return Err(e);
            },
        };
        proof {
            lemma_took_chain(*old(port), two, *port, 2, 1);
        }
    }
    if b == ZDLE {
        return Ok(());
    }
    Err(InvalidData)
}

/// One more octet read moves from the front of what is left to the back of
/// what was read.
pub proof fn lemma_scan_octets_step(front: Seq<u8>, used: nat, s: Seq<u8>, n: nat)
    requires
        n > 0,
    ensures
        match scan_unescaped(s) {
            Scan::Done { value, used: more } => scan_after(front, used, scan_octets(s, n))
                == scan_after(
                front.push(value),
                used + more,
                scan_octets(s.skip(more as int), (n - 1) as nat),
            ),
            _ => scan_after(front, used, scan_octets(s, n)) == Scan::<Seq<u8>>::Short,
        },
{
    match scan_unescaped(s) {
        Scan::Done { value, used: more } => {
            match scan_octets(s.skip(more as int), (n - 1) as nat) {
                Scan::Done { value: tail, used: last } => {
                    assert(front + (seq![value] + tail) == front.push(value) + tail);
                },
                _ => {},
            }
        },
        _ => {},
    }
}

/// Reading octets never shows an error: the bytes suffice or they do not.
pub proof fn lemma_scan_octets_not_bad(s: Seq<u8>, n: nat)
    ensures
        !(scan_octets(s, n) is Bad),
        scan_octets(s, n) matches Scan::Done { value, used } ==> value.len() == n && used
            <= s.len(),
    decreases n,
{
    if n > 0 {
        match scan_unescaped(s) {
            Scan::Done { value, used } => {
                lemma_scan_octets_not_bad(s.skip(used as int), (n - 1) as nat);
            },
            _ => {},
        }
    }
}

/// Octets that were escaped and sent are read back as they were, whatever
/// follows them.
pub proof fn lemma_scan_octets_escaped(x: Seq<u8>, rest: Seq<u8>)
    ensures
        scan_octets(escape_seq(x) + rest, x.len()) == (Scan::Done {
            value: x,
            used: escape_seq(x).len(),
        }),
    decreases x.len(),
{
    if x.len() == 0 {
        assert(escape_seq(x).len() == 0);
        assert(x =~= Seq::<u8>::empty());
    } else {
        let b = x[0];
        let tail = x.skip(1);
        let s = escape_seq(x) + rest;
        let w = wire_form(b);
        assert(s == w + (escape_seq(tail) + rest));
        if needs_escape(b) {
            lemma_unescape_inverts_escape(b);
            assert(s[0] == ZDLE);
            assert(s[1] == crate::escape::escaped(b));
        } else {
            lemma_plain_is_not_zdle(b);
            assert(s[0] == b);
        }
        assert(scan_unescaped(s) == (Scan::Done { value: b, used: w.len() }));
        assert(s.skip(w.len() as int) == escape_seq(tail) + rest);
        lemma_scan_octets_escaped(tail, rest);
        assert(seq![b] + tail == x);
        assert(escape_seq(x).len() == w.len() + escape_seq(tail).len());
        assert(x.len() - 1 == tail.len());
    }
}

/// Whether a read that came to `scan` had bytes enough.
pub open spec fn settled<T>(scan: Scan<T>) -> bool {
    !(scan is Short)
}

/// What the opening sequence was read as does not change when more bytes
/// come in behind it.
pub proof fn lemma_scan_zpad_stable(s: Seq<u8>, more: Seq<u8>)
    requires
        settled(scan_zpad(s)),
    ensures
        scan_zpad(s + more) == scan_zpad(s),
{
    let all = s + more;
    assert(all[0] == s[0]);
    if s.len() >= 2 {
        assert(all[1] == s[1]);
    }
    if s.len() >= 3 {
        assert(all[2] == s[2]);
    }
}

/// What octets were read as does not change when more bytes come in behind
/// them.
pub proof fn lemma_scan_octets_stable(s: Seq<u8>, n: nat, more: Seq<u8>)
    requires
        settled(scan_octets(s, n)),
    ensures
        scan_octets(s + more, n) == scan_octets(s, n),
    decreases n,
{
    if n > 0 {
        let all = s + more;
        match scan_unescaped(s) {
            Scan::Done { value, used } => {
                assert(all[0] == s[0]);
                if used == 2 {
                    assert(all[1] == s[1]);
                }
                assert(all.skip(used as int) =~= s.skip(used as int) + more);
                lemma_scan_octets_stable(s.skip(used as int), (n - 1) as nat, more);
            },
            _ => {},
        }
    }
}

/// The result of a read of bytes, with the bytes as a sequence.
pub open spec fn bytes_read(r: Result<Vec<u8>, InvalidData>) -> Result<Seq<u8>, InvalidData> {
    match r {
        Ok(v) => Ok(v@),
        Err(e) => Err(e),
    }
}

/// Reads `n` octets, undoing their escapes.
pub fn read_octets(port: &mut Port, n: usize) -> (r: Result<Vec<u8>, InvalidData>)
    ensures
        reads(*old(port), *final(port), scan_octets(old(port).pending(), n as nat), bytes_read(r)),
{
    let mut out: Vec<u8> = Vec::new();
    let ghost whole = scan_octets(old(port).pending(), n as nat);
    let ghost mut used: nat = 0;
    proof {
        let p = old(port).pending();
        assert(p.take(0) == Seq::<u8>::empty());
        assert(p.skip(0) == p);
        assert(old(port).consumed() + Seq::<u8>::empty() == old(port).consumed());
        match whole {
            Scan::Done { value, used } => {
                assert(Seq::<u8>::empty() + value == value);
            },
            _ => {},
        }
    }
    let mut i: usize = 0;
    while i < n
        invariant
            i <= n,
            out@.len() == i,
            port.took(*old(port), used),
            port.starved() == starved_after(*old(port), used),
            i > 0 ==> used > 0,
            whole == scan_octets(old(port).pending(), n as nat),
            whole == scan_after(out@, used, scan_octets(port.pending(), (n - i) as nat)),
        decreases n - i,
    {
        let ghost mid = *port;
        proof {
            lemma_scan_octets_step(out@, used, port.pending(), (n - i) as nat);
        }
        match read_byte_unescaped(port) {
            Ok(b) => {
                proof {
                    let more = scan_unescaped(mid.pending())->Done_used;
                    lemma_took_chain(*old(port), mid, *port, used, more);
                    used = used + more;
                }
                out.push(b);
            },
            Err(e) => {
                proof {
                    lemma_took_rest(*old(port), mid, *port, used);
                }
                return Err(e);
            },
        }
        i = i + 1;
    }
    proof {
        assert(out@ + Seq::<u8>::empty() == out@);
    }
    Ok(out)
}

/// The opening sequence is accepted on exactly two beginnings.
pub proof fn lemma_zpad_accepts(s: Seq<u8>)
    ensures
        scan_zpad(s) is Done <==> ((s.len() >= 2 && s[0] == ZPAD && s[1] == ZDLE) || (s.len() >= 3
            && s[0] == ZPAD && s[1] == ZPAD && s[2] == ZDLE)),
{
}

} // verus!
