//! The outbound frame encoder: a fixed-capacity byte-stuffing writer.
//!
//! A loaded payload is finalized with its checksum and then drained one byte
//! at a time. The wire image of a frame is
//! `FRAME_END, <escaped payload bytes>, <escaped checksum high>,
//! <escaped checksum low>, FRAME_END`; inside the body every byte equal to
//! `FRAME_END` or `ESCAPE` is replaced by `ESCAPE` followed by its
//! substitute, so the two delimiters that bookend the frame stay unambiguous.

use vstd::prelude::*;

use crate::checksum::crc16_x25;
use crate::checksum::spec_crc16_x25;

verus! {

/// Delimiter that opens and closes every frame.
pub const FRAME_END: u8 = 0xC0;

/// Escape prefix for delimiter-valued bytes inside the frame body.
pub const ESCAPE: u8 = 0xDB;

/// Substitute emitted after `ESCAPE` for a body byte equal to `FRAME_END`.
pub const ESCAPE_END: u8 = 0xDC;

/// Substitute emitted after `ESCAPE` for a body byte equal to `ESCAPE`.
pub const ESCAPE_ESCAPE: u8 = 0xDD;

/// Command code of a ping request.
pub const PING_REQUEST: u8 = 0x01;

/// Command code of a ping confirmation.
pub const PING_CONFIRM: u8 = 0x81;

/// Payload capacity of the encoder, in bytes.
pub const CAPACITY: usize = 32;

/// The error vocabulary shared by both sides of the link. Only
/// `BufferOverflow` is raised by the encoder itself; the other cases belong
/// to the decoding side.
#[derive(Debug, Copy, Clone, PartialEq, Eq, Structural)]
pub enum Error {
    BadChecksum,
    BadHeader,
    BufferOverflow,
    FileNotFound,
    BadOffset,
}

/// Whether a body byte collides with a reserved delimiter value and so must
/// be escaped on the wire.
pub open spec fn needs_escape(b: u8) -> bool {
    b == FRAME_END || b == ESCAPE
}

/// The substitute transmitted after the `ESCAPE` prefix for an escaped byte.
pub open spec fn escaped_value(b: u8) -> u8 {
    if b == FRAME_END {
        ESCAPE_END
    } else if b == ESCAPE {
        ESCAPE_ESCAPE
    } else {
        b
    }
}

/// The wire image of one body byte: the byte itself, or its two-byte escape
/// sequence.
pub open spec fn esc_seq(b: u8) -> Seq<u8> {
    if needs_escape(b) {
        seq![ESCAPE, escaped_value(b)]
    } else {
        seq![b]
    }
}

/// The wire image of a run of body bytes, each escaped independently.
pub open spec fn escape_all(s: Seq<u8>) -> Seq<u8>
    decreases s.len(),
{
    if s.len() == 0 {
        Seq::empty()
    } else {
        escape_all(s.drop_last()) + esc_seq(s.last())
    }
}

/// How many bytes of `s` need escaping.
pub open spec fn count_escaping(s: Seq<u8>) -> int
    decreases s.len(),
{
    if s.len() == 0 {
        0
    } else {
        count_escaping(s.drop_last()) + if needs_escape(s.last()) {
            1int
        } else {
            0int
        }
    }
}

/// High byte of a checksum, transmitted first.
pub open spec fn crc_hi(c: u16) -> u8 {
    (c >> 8) as u8
}

/// Low byte of a checksum, transmitted second.
pub open spec fn crc_lo(c: u16) -> u8 {
    (c & 0xff) as u8
}

/// The body bytes of a frame over payload `p` with checksum `c`: the payload
/// followed by the two checksum bytes, high first.
pub open spec fn body_items(p: Seq<u8>, c: u16) -> Seq<u8> {
    p + seq![crc_hi(c), crc_lo(c)]
}

/// The complete wire image of a frame over payload `p` with checksum `c`.
pub open spec fn frame_seq(p: Seq<u8>, c: u16) -> Seq<u8> {
    seq![FRAME_END] + escape_all(body_items(p, c)) + seq![FRAME_END]
}

/// The complete wire image of a finalized frame over payload `p`.
pub open spec fn frame_for(p: Seq<u8>) -> Seq<u8> {
    frame_seq(p, spec_crc16_x25(p))
}

/// Escaping a run of bytes yields one extra byte per escaped byte.
pub proof fn lemma_escape_all_len(s: Seq<u8>)
    ensures
        escape_all(s).len() == s.len() + count_escaping(s),
        0 <= count_escaping(s) <= s.len(),
    decreases s.len(),
{
    if s.len() > 0 {
        lemma_escape_all_len(s.drop_last());
    }
}

/// Escaping one more byte appends its wire image.
pub proof fn lemma_escape_all_take_succ(s: Seq<u8>, n: int)
    requires
        0 <= n < s.len(),
    ensures
        escape_all(s.take(n + 1)) == escape_all(s.take(n)) + esc_seq(s[n]),
{
    assert(s.take(n + 1).drop_last() =~= s.take(n));
    assert(s.take(n + 1).last() == s[n]);
}

/// The wire image of a run splits around any single byte of it.
pub proof fn lemma_escape_all_decompose(s: Seq<u8>, n: int)
    requires
        0 <= n < s.len(),
    ensures
        escape_all(s) == escape_all(s.take(n)) + esc_seq(s[n]) + escape_all(s.skip(n + 1)),
    decreases s.len(),
{
    if n == s.len() - 1 {
        assert(s.take(n) =~= s.drop_last());
        assert(s.skip(n + 1) =~= Seq::<u8>::empty());
        assert(escape_all(s.take(n)) + esc_seq(s[n]) + escape_all(s.skip(n + 1)) =~= escape_all(
            s.drop_last(),
        ) + esc_seq(s.last()));
    } else {
        let t = s.drop_last();
        lemma_escape_all_decompose(t, n);
        assert(t.take(n) =~= s.take(n));
        assert(s.skip(n + 1).drop_last() =~= t.skip(n + 1));
        assert(s.skip(n + 1).last() == s.last());
        assert(escape_all(s.take(n)) + esc_seq(s[n]) + escape_all(t.skip(n + 1)) + esc_seq(
            s.last(),
        ) =~= escape_all(s.take(n)) + esc_seq(s[n]) + escape_all(s.skip(n + 1)));
    }
}

/// Escaping distributes over concatenation: each byte is escaped
/// independently of its neighbours.
pub proof fn lemma_escape_all_app(a: Seq<u8>, b: Seq<u8>)
    ensures
        escape_all(a + b) == escape_all(a) + escape_all(b),
    decreases b.len(),
{
    if b.len() == 0 {
        assert(a + b =~= a);
        assert(escape_all(a) + escape_all(b) =~= escape_all(a));
    } else {
        lemma_escape_all_app(a, b.drop_last());
        assert((a + b).drop_last() =~= a + b.drop_last());
        assert((a + b).last() == b.last());
        assert(escape_all(a) + (escape_all(b.drop_last()) + esc_seq(b.last())) =~= escape_all(a)
            + escape_all(b.drop_last()) + esc_seq(b.last()));
    }
}

/// The outbound frame encoder. It owns a fixed payload buffer and the drain
/// state of the frame being emitted: `sent` counts the logical frame
/// positions completed so far and `had_escape` is true exactly between the
/// escape prefix and the substitute byte of an escaped body byte.
#[derive(Debug)]
pub struct CommandWriter {
    bytes: [u8; 32],
    sent: usize,
    count: usize,
    had_escape: bool,
    crc: u16,
}

impl CommandWriter {
    /// The loaded payload: the first `count` bytes of the buffer.
    pub closed spec fn payload(self) -> Seq<u8> {
        self.bytes@.take(self.count as int)
    }

    /// The stored checksum, valid once `prep_for_send` has run over the
    /// current payload.
    pub closed spec fn checksum(self) -> u16 {
        self.crc
    }

    /// The body bytes of the frame being drained: payload then checksum.
    pub open spec fn items(self) -> Seq<u8> {
        body_items(self.payload(), self.checksum())
    }

    /// The complete wire image of the frame being drained.
    pub open spec fn wire(self) -> Seq<u8> {
        frame_seq(self.payload(), self.checksum())
    }

    /// Well-formedness of the drain state: the payload fits the buffer, the
    /// position cursor has not run past the end of the frame, and a pending
    /// escape always belongs to a body byte that indeed needs escaping.
    pub closed spec fn wf(self) -> bool {
        &&& self.count <= CAPACITY
        &&& self.sent <= self.count + 4
        &&& (self.had_escape ==> 1 <= self.sent <= self.count + 2 && needs_escape(
            self.items()[self.sent - 1],
        ))
    }

    /// How many wire bytes have been emitted so far.
    pub closed spec fn emitted(self) -> int {
        if self.sent == 0 {
            0
        } else if self.sent <= self.count + 3 {
            1 + escape_all(self.items().take(self.sent - 1)).len() + if self.had_escape {
                1int
            } else {
                0int
            }
        } else {
            self.wire().len() as int
        }
    }

    /// A fresh encoder: empty payload, zero checksum, nothing emitted.
    pub fn new() -> (r: CommandWriter)
        ensures
            r.wf(),
            r.payload() == Seq::<u8>::empty(),
            r.checksum() == 0,
            r.emitted() == 0,
    {
        let r = CommandWriter { bytes: [0u8; 32], sent: 0, count: 0, had_escape: false, crc: 0 };
        proof {
            assert(r.payload() =~= Seq::<u8>::empty());
        }
        r
    }

    /// Abandons any frame being drained and empties the payload. All drain
    /// sub-state is cleared, including a pending escape, so the next frame
    /// starts clean.
    pub fn reset(&mut self)
        ensures
            final(self).wf(),
            final(self).payload() == Seq::<u8>::empty(),
            final(self).checksum() == old(self).checksum(),
            final(self).emitted() == 0,
    {
        self.sent = 0;
        self.count = 0;
        self.had_escape = false;
        proof {
            assert(self.payload() =~= Seq::<u8>::empty());
        }
    }

    /// Loads a command payload, replacing the previous one and abandoning
    /// any frame being drained. A payload longer than the capacity is
    /// rejected as `BufferOverflow` and the encoder is left unchanged. The
    /// checksum is not computed here: `prep_for_send` must follow before the
    /// frame is drained.
    pub fn load_payload(&mut self, data: &[u8]) -> (r: Result<(), Error>)
        ensures
            data@.len() <= CAPACITY ==> {
                &&& r == Ok::<(), Error>(())
                &&& final(self).wf()
                &&& final(self).payload() == data@
                &&& final(self).checksum() == old(self).checksum()
                &&& final(self).emitted() == 0
            },
            data@.len() > CAPACITY ==> {
                &&& r == Err::<(), Error>(Error::BufferOverflow)
                &&& *final(self) == *old(self)
            },
    {
        if data.len() > CAPACITY {
            return Err(Error::BufferOverflow);
        }
        let n: usize = data.len();
        let mut i: usize = 0;
        while i < n
            invariant
                n == data@.len() <= CAPACITY,
                i <= n,
                self.bytes@.len() == 32,
                forall|j: int| 0 <= j < i ==> self.bytes@[j] == data@[j],
                self.count == old(self).count,
                self.sent == old(self).sent,
                self.had_escape == old(self).had_escape,
                self.crc == old(self).crc,
            decreases n - i,
        {
            let b: u8 = data[i];
            self.bytes[i] = b;
            i = i + 1;
        }
        self.count = n;
        self.sent = 0;
        self.had_escape = false;
        proof {
            assert(self.payload() =~= data@);
        }
        Ok(())
    }

    /// Finalizes the loaded payload: computes its CRC-16/X25 checksum and
    /// rewinds the drain state so the next `get_byte` starts a fresh frame.
    pub fn prep_for_send(&mut self)
        requires
            old(self).wf(),
        ensures
            final(self).wf(),
            final(self).payload() == old(self).payload(),
            final(self).checksum() == spec_crc16_x25(old(self).payload()),
            final(self).emitted() == 0,
            final(self).wire() == frame_for(old(self).payload()),
    {
        self.sent = 0;
        self.had_escape = false;
        let c: u16 = crc16_x25(vstd::slice::slice_subrange(self.bytes.as_slice(), 0, self.count));
        proof {
            assert(self.bytes@.subrange(0, self.count as int) =~= self.payload());
        }
        self.crc = c;
    }

    /// Loads and finalizes the one-byte ping request command.
    pub fn send_ping_req(&mut self)
        ensures
            final(self).wf(),
            final(self).payload() == seq![PING_REQUEST],
            final(self).checksum() == spec_crc16_x25(seq![PING_REQUEST]),
            final(self).emitted() == 0,
            final(self).wire() == frame_for(seq![PING_REQUEST]),
    {
        self.bytes[0] = PING_REQUEST;
        self.count = 1;
        self.sent = 0;
        self.had_escape = false;
        proof {
            assert(self.payload() =~= seq![PING_REQUEST]);
        }
        self.prep_for_send();
    }

    /// Loads and finalizes the one-byte ping confirmation command.
    pub fn send_ping_cfm(&mut self)
        ensures
            final(self).wf(),
            final(self).payload() == seq![PING_CONFIRM],
            final(self).checksum() == spec_crc16_x25(seq![PING_CONFIRM]),
            final(self).emitted() == 0,
            final(self).wire() == frame_for(seq![PING_CONFIRM]),
    {
        self.bytes[0] = PING_CONFIRM;
        self.count = 1;
        self.sent = 0;
        self.had_escape = false;
        proof {
            assert(self.payload() =~= seq![PING_CONFIRM]);
        }
        self.prep_for_send();
    }

    /// Emits one wire byte for the body byte `to_send`: the byte itself when
    /// it needs no escaping, else first the escape prefix (leaving the
    /// cursor in place) and on the next call the substitute byte.
    fn escape_and_send(&mut self, to_send: u8) -> (r: u8)
        requires
            old(self).sent < usize::MAX,
        ensures
            final(self).bytes == old(self).bytes,
            final(self).count == old(self).count,
            final(self).crc == old(self).crc,
            !needs_escape(to_send) ==> {
                &&& r == to_send
                &&& final(self).sent == old(self).sent + 1
                &&& final(self).had_escape == old(self).had_escape
            },
            needs_escape(to_send) && !old(self).had_escape ==> {
                &&& r == ESCAPE
                &&& final(self).sent == old(self).sent
                &&& final(self).had_escape
            },
            needs_escape(to_send) && old(self).had_escape ==> {
                &&& r == escaped_value(to_send)
                &&& final(self).sent == old(self).sent + 1
                &&& !final(self).had_escape
            },
    {
        if !need_escape(to_send) {
            self.sent = self.sent + 1;
            to_send
        } else {
            if !self.had_escape {
                self.had_escape = true;
                ESCAPE
            } else {
                self.sent = self.sent + 1;
                self.had_escape = false;
                escape(to_send)
            }
        }
    }

    /// Pulls the next wire byte of the frame being drained, or `None` once
    /// the frame is exhausted. Every call past exhaustion returns `None` and
    /// leaves the encoder untouched. Over a whole drain the returned bytes
    /// are exactly `self.wire()`, in order.
    pub fn get_byte(&mut self) -> (r: Option<u8>)
        requires
            old(self).wf(),
        ensures
            final(self).wf(),
            final(self).payload() == old(self).payload(),
            final(self).checksum() == old(self).checksum(),
            final(self).wire() == old(self).wire(),
            old(self).emitted() < old(self).wire().len() ==> {
                &&& r == Some(old(self).wire()[old(self).emitted()])
                &&& final(self).emitted() == old(self).emitted() + 1
            },
            old(self).emitted() >= old(self).wire().len() ==> {
                &&& r is None
                &&& *final(self) == *old(self)
            },
    {
        proof {
            lemma_emitted_in_range(*old(self));
            assert(old(self).payload().len() == old(self).count);
            assert(old(self).items().len() == old(self).count + 2);
        }
        if self.sent == 0 {
            self.sent = self.sent + 1;
            proof {
                assert(self.items().take(0) =~= Seq::<u8>::empty());
                assert(old(self).wire()[0] == FRAME_END);
            }
            Some(FRAME_END)
        } else if self.sent <= self.count {
            let to_send: u8 = self.bytes[self.sent - 1];
            proof {
                self.lemma_body_byte_emission(to_send);
            }
            let r: u8 = self.escape_and_send(to_send);
            proof {
                old(self).lemma_body_byte_emitted(*self, to_send, r);
            }
            Some(r)
        } else if self.sent == self.count + 1 {
            proof {
                let c: u16 = self.crc;
                assert(c >> 8 < 256) by (bit_vector);
            }
            let to_send: u8 = (self.crc >> 8) as u8;
            proof {
                self.lemma_body_byte_emission(to_send);
            }
            let r: u8 = self.escape_and_send(to_send);
            proof {
                old(self).lemma_body_byte_emitted(*self, to_send, r);
            }
            Some(r)
        } else if self.sent == self.count + 2 {
            proof {
                let c: u16 = self.crc;
                assert(c & 0xff < 256) by (bit_vector);
            }
            let to_send: u8 = (self.crc & 0xff) as u8;
            proof {
                self.lemma_body_byte_emission(to_send);
            }
            let r: u8 = self.escape_and_send(to_send);
            proof {
                old(self).lemma_body_byte_emitted(*self, to_send, r);
            }
            Some(r)
        } else if self.sent == self.count + 3 {
            self.sent = self.sent + 1;
            proof {
                let s = old(self).items();
                assert(s.take(old(self).count + 2) =~= s);
                assert(old(self).emitted() == old(self).wire().len() - 1);
                assert(old(self).wire()[old(self).wire().len() - 1] == FRAME_END);
                assert(s.take(self.count + 2) =~= s);
            }
            Some(FRAME_END)
        } else {
            None
        }
    }

    /// The facts needed before emitting the body byte at position
    /// `sent - 1`: the byte matches the frame model there and its escape
    /// image sits at the already-emitted offset of the wire image.
    proof fn lemma_body_byte_emission(self, to_send: u8)
        requires
            self.wf(),
            1 <= self.sent <= self.count + 2,
            to_send == self.items()[self.sent - 1],
        ensures
            ({
                let s = self.items();
                let n = self.sent - 1;
                let fore = escape_all(s.take(n)).len() as int;
                &&& escape_all(s) == escape_all(s.take(n)) + esc_seq(s[n]) + escape_all(
                    s.skip(n + 1),
                )
                &&& escape_all(s.take(n + 1)) == escape_all(s.take(n)) + esc_seq(s[n])
                &&& forall|j: int|
                    0 <= j < esc_seq(s[n]).len() ==> self.wire()[1 + fore + j] == esc_seq(s[n])[j]
                &&& 1 + fore + esc_seq(s[n]).len() <= self.wire().len() - 1
            }),
    {
        let s = self.items();
        let n = self.sent - 1;
        assert(self.payload().len() == self.count);
        lemma_escape_all_decompose(s, n);
        lemma_escape_all_take_succ(s, n);
        let fore = escape_all(s.take(n)).len() as int;
        assert forall|j: int| 0 <= j < esc_seq(s[n]).len() implies self.wire()[1 + fore + j]
            == esc_seq(s[n])[j] by {
            assert(escape_all(s)[fore + j] == esc_seq(s[n])[j]);
        }
    }

    /// Carries the byte-level facts across one `escape_and_send` call: the
    /// returned byte is the next wire byte and the emitted count advances by
    /// exactly one.
    proof fn lemma_body_byte_emitted(self, post: CommandWriter, to_send: u8, r: u8)
        requires
            self.wf(),
            1 <= self.sent <= self.count + 2,
            to_send == self.items()[self.sent - 1],
            post.bytes == self.bytes,
            post.count == self.count,
            post.crc == self.crc,
            !needs_escape(to_send) ==> r == to_send && post.sent == self.sent + 1
                && post.had_escape == self.had_escape,
            needs_escape(to_send) && !self.had_escape ==> r == ESCAPE && post.sent == self.sent
                && post.had_escape,
            needs_escape(to_send) && self.had_escape ==> r == escaped_value(to_send) && post.sent
                == self.sent + 1 && !post.had_escape,
        ensures
            post.wf(),
            post.payload() == self.payload(),
            post.wire() == self.wire(),
            self.emitted() < self.wire().len(),
            r == self.wire()[self.emitted()],
            post.emitted() == self.emitted() + 1,
    {
        let s = self.items();
        let n = self.sent - 1;
        assert(self.payload().len() == self.count);
        self.lemma_body_byte_emission(to_send);
        assert(post.payload() =~= self.payload());
        assert(post.items() == s);
        let fore = escape_all(s.take(n)).len() as int;
        if !needs_escape(to_send) {
            assert(!self.had_escape);
            assert(esc_seq(s[n]) == seq![to_send]);
            assert(self.emitted() == 1 + fore);
            assert(self.wire()[1 + fore] == to_send);
            assert(post.emitted() == 1 + escape_all(s.take(n + 1)).len());
        } else if !self.had_escape {
            assert(esc_seq(s[n])[0] == ESCAPE);
            assert(self.emitted() == 1 + fore);
            assert(self.wire()[1 + fore] == ESCAPE);
            assert(post.emitted() == 1 + fore + 1);
        } else {
            assert(esc_seq(s[n])[1] == escaped_value(to_send));
            assert(self.emitted() == 1 + fore + 1);
            assert(self.wire()[1 + fore + 1] == escaped_value(to_send));
            assert(post.emitted() == 1 + escape_all(s.take(n + 1)).len());
        }
    }
}

/// Escaping a prefix never yields more wire bytes than escaping the whole
/// run: every remaining body byte contributes at least one wire byte.
pub proof fn lemma_escape_all_take_len_le(s: Seq<u8>, n: int)
    requires
        0 <= n <= s.len(),
    ensures
        escape_all(s.take(n)).len() + (s.len() - n) <= escape_all(s).len(),
    decreases s.len() - n,
{
    if n == s.len() {
        assert(s.take(n) =~= s);
    } else {
        lemma_escape_all_take_succ(s, n);
        lemma_escape_all_take_len_le(s, n + 1);
    }
}

/// The emitted count of a well-formed encoder never runs past the end of
/// its wire image.
pub proof fn lemma_emitted_in_range(w: CommandWriter)
    requires
        w.wf(),
    ensures
        0 <= w.emitted() <= w.wire().len(),
{
    assert(w.payload().len() == w.count);
    let s = w.items();
    if 1 <= w.sent <= w.count + 3 {
        lemma_escape_all_take_len_le(s, w.sent - 1);
    }
}

/// A frame is its payload length plus four fixed positions (two delimiters
/// and two checksum bytes), plus one extra wire byte for every payload or
/// checksum byte that needs escaping.
pub proof fn lemma_frame_len(p: Seq<u8>, c: u16)
    ensures
        frame_seq(p, c).len() == p.len() + 4 + count_escaping(body_items(p, c)),
{
    lemma_escape_all_len(body_items(p, c));
}

/// A run without delimiter-valued bytes needs no escaping at all.
pub proof fn lemma_count_escaping_none(s: Seq<u8>)
    requires
        forall|i: int| 0 <= i < s.len() ==> !needs_escape(s[i]),
    ensures
        count_escaping(s) == 0,
    decreases s.len(),
{
    if s.len() > 0 {
        lemma_count_escaping_none(s.drop_last());
    }
}

/// When neither the payload nor its two checksum bytes contain a
/// delimiter-valued byte, the finalized frame is exactly the payload length
/// plus four.
pub proof fn lemma_frame_len_unescaped(p: Seq<u8>)
    requires
        forall|i: int| 0 <= i < p.len() ==> !needs_escape(p[i]),
        !needs_escape(crc_hi(spec_crc16_x25(p))),
        !needs_escape(crc_lo(spec_crc16_x25(p))),
    ensures
        frame_for(p).len() == p.len() + 4,
{
    let s = body_items(p, spec_crc16_x25(p));
    assert forall|i: int| 0 <= i < s.len() implies !needs_escape(s[i]) by {
        if i < p.len() {
            assert(s[i] == p[i]);
        }
    }
    lemma_frame_len(p, spec_crc16_x25(p));
    lemma_count_escaping_none(s);
}

/// The checksum travels big-endian: its escaped high byte, then its escaped
/// low byte, stand between the escaped payload and the closing delimiter,
/// each escaped independently.
pub proof fn lemma_checksum_order(p: Seq<u8>, c: u16)
    ensures
        frame_seq(p, c) == seq![FRAME_END] + escape_all(p) + esc_seq(crc_hi(c)) + esc_seq(
            crc_lo(c),
        ) + seq![FRAME_END],
{
    let pair = seq![crc_hi(c), crc_lo(c)];
    lemma_escape_all_app(p, pair);
    assert(pair.drop_last() =~= seq![crc_hi(c)]);
    assert(seq![crc_hi(c)].drop_last() =~= Seq::<u8>::empty());
    assert(Seq::<u8>::empty() + esc_seq(crc_hi(c)) =~= esc_seq(crc_hi(c)));
    assert(escape_all(Seq::<u8>::empty()) == Seq::<u8>::empty());
    assert(escape_all(seq![crc_hi(c)]) =~= esc_seq(crc_hi(c)));
    assert(escape_all(pair) =~= esc_seq(crc_hi(c)) + esc_seq(crc_lo(c)));
    assert(seq![FRAME_END] + escape_all(p) + esc_seq(crc_hi(c)) + esc_seq(crc_lo(c)) + seq![
        FRAME_END,
    ] =~= seq![FRAME_END] + (escape_all(p) + (esc_seq(crc_hi(c)) + esc_seq(crc_lo(c)))) + seq![
        FRAME_END,
    ]);
}

/// Framing is a pure function of the payload: two finalized encoders over
/// equal payloads drain identical wire streams, so an abandoned drain redone
/// after a reset, reload and finalize reproduces the frame byte for byte.
pub proof fn lemma_framing_deterministic(a: CommandWriter, b: CommandWriter)
    requires
        a.payload() == b.payload(),
        a.checksum() == spec_crc16_x25(a.payload()),
        b.checksum() == spec_crc16_x25(b.payload()),
    ensures
        a.wire() == b.wire(),
{
}

/// No escaped body byte equals the frame delimiter: a delimiter-valued byte
/// travels as the two bytes `ESCAPE`, `ESCAPE_END` instead of appearing
/// bare.
pub proof fn lemma_body_free_of_delimiter(s: Seq<u8>)
    ensures
        esc_seq(FRAME_END) == seq![ESCAPE, ESCAPE_END],
        forall|i: int| 0 <= i < escape_all(s).len() ==> escape_all(s)[i] != FRAME_END,
    decreases s.len(),
{
    if s.len() > 0 {
        lemma_body_free_of_delimiter(s.drop_last());
        let pre = escape_all(s.drop_last());
        let tail = esc_seq(s.last());
        assert forall|i: int| 0 <= i < escape_all(s).len() implies escape_all(s)[i] != FRAME_END by {
            if i < pre.len() {
                assert(escape_all(s)[i] == pre[i]);
            } else {
                assert(escape_all(s)[i] == tail[i - pre.len()]);
            }
        }
    }
}

/// Between the two delimiters of a frame no wire byte equals `FRAME_END`,
/// so the delimiters that bookend the frame stay unambiguous.
pub proof fn lemma_frame_interior_free_of_delimiter(p: Seq<u8>, c: u16)
    ensures
        forall|i: int|
            1 <= i < frame_seq(p, c).len() - 1 ==> frame_seq(p, c)[i] != FRAME_END,
{
    lemma_body_free_of_delimiter(body_items(p, c));
    let body = escape_all(body_items(p, c));
    assert forall|i: int| 1 <= i < frame_seq(p, c).len() - 1 implies frame_seq(p, c)[i]
        != FRAME_END by {
        assert(frame_seq(p, c)[i] == body[i - 1]);
    }
}

/// Tells whether a byte must be escaped on the wire.
fn need_escape(byte: u8) -> (r: bool)
    ensures
        r == needs_escape(byte),
{
    match byte {
        FRAME_END => true,
        ESCAPE => true,
        _ => false,
    }
}

/// The substitute byte sent after the escape prefix.
fn escape(byte: u8) -> (r: u8)
    ensures
        r == escaped_value(byte),
{
    match byte {
        FRAME_END => ESCAPE_END,
        ESCAPE => ESCAPE_ESCAPE,
        x => x,
    }
}

} // verus!
