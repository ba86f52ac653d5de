//! The outer framing: each message goes out behind one byte that gives its
//! length; a receiver gathers bytes until the message is whole. A length
//! byte of 0 is filler and is skipped.
use vstd::prelude::*;

verus! {

/// Puts the one-byte length before `payload`; `None` when it is longer than 255.
pub fn frame_packet(payload: &Vec<u8>) -> (r: Option<Vec<u8>>)
    ensures
        r is Some <==> payload.len() <= 255,
        r is Some ==> r->0@ == seq![payload.len() as u8] + payload@,
{
    if payload.len() > 255 {
        return None;
    }
    let mut msg: Vec<u8> = Vec::new();
    msg.push(payload.len() as u8);
    let mut i: usize = 0;
    while i < payload.len()
        invariant
            0 <= i <= payload.len() <= 255,
            msg@ == seq![payload.len() as u8] + payload@.subrange(0, i as int),
        decreases payload.len() - i,
    {
        msg.push(payload[i]);
        i = i + 1;
        assert(msg@ =~= seq![payload.len() as u8] + payload@.subrange(0, i as int));
    }
    assert(payload@.subrange(0, payload.len() as int) =~= payload@);
    Some(msg)
}

/// Gathers framed messages from a stream of bytes.
pub struct PacketReader {
    remaining: u8,
    packet: Vec<u8>,
}

pub struct ReaderModel {
    /// Bytes still owed to the message being read; 0 while waiting for a length.
    pub remaining: nat,
    pub packet: Seq<u8>,
}

impl View for PacketReader {
    type V = ReaderModel;

    closed spec fn view(&self) -> ReaderModel {
        ReaderModel { remaining: self.remaining as nat, packet: self.packet@ }
    }
}

pub open spec fn idle() -> ReaderModel {
    ReaderModel { remaining: 0, packet: Seq::empty() }
}

/// One byte read: a length starts a message, a payload byte extends it, and
/// the last one hands it over whole.
pub open spec fn reader_step(s: ReaderModel, b: u8) -> (ReaderModel, Option<Seq<u8>>) {
    if s.remaining == 0 {
        if b == 0 {
            (s, None)
        } else {
            (ReaderModel { remaining: b as nat, packet: Seq::empty() }, None)
        }
    } else if s.remaining == 1 {
        (idle(), Some(s.packet.push(b)))
    } else {
        (ReaderModel { remaining: (s.remaining - 1) as nat, packet: s.packet.push(b) }, None)
    }
}

/// The state after reading `bytes`, and the messages completed on the way.
pub open spec fn read_all(s: ReaderModel, bytes: Seq<u8>) -> (ReaderModel, Seq<Seq<u8>>)
    decreases bytes.len(),
{
    if bytes.len() == 0 {
        (s, Seq::empty())
    } else {
        let (s1, out) = read_all(s, bytes.drop_last());
        let (s2, o) = reader_step(s1, bytes.last());
        (
            s2,
            match o {
                Some(p) => out.push(p),
                None => out,
            },
        )
    }
}

impl PacketReader {
    pub closed spec fn wf(&self) -> bool {
        &&& self.remaining == 0 ==> self.packet@.len() == 0
        &&& self.packet@.len() + self.remaining <= 255
    }

    pub fn new() -> (r: PacketReader)
        ensures
            r@ == idle(),
            r.wf(),
    {
        PacketReader { remaining: 0, packet: Vec::new() }
    }

    /// Reads one byte; gives the message it completes, if any.
    pub fn push_byte(&mut self, b: u8) -> (r: Option<Vec<u8>>)
        requires
            old(self).wf(),
        ensures
            final(self).wf(),
            (final(self)@, match r {
                Some(p) => Some(p@),
                None => None,
            }) == reader_step(old(self)@, b),
    {
        if self.remaining == 0 {
            if b != 0 {
                self.remaining = b;
                self.packet = Vec::new();
            }
            None
        } else {
            self.packet.push(b);
            self.remaining = self.remaining - 1;
            if self.remaining == 0 {
                let mut done: Vec<u8> = Vec::new();
                core::mem::swap(&mut done, &mut self.packet);
                Some(done)
            } else {
                None
            }
        }
    }

    /// Reads `bytes` in order; gives the messages they complete.
    pub fn push_bytes(&mut self, bytes: &Vec<u8>) -> (r: Vec<Vec<u8>>)
        requires
            old(self).wf(),
        ensures
            final(self).wf(),
            final(self)@ == read_all(old(self)@, bytes@).0,
            r.len() == read_all(old(self)@, bytes@).1.len(),
            forall|k: int| 0 <= k < r.len() ==> #[trigger] r@[k]@ == read_all(old(self)@, bytes@).1[k],
    {
        let ghost start = self@;
        let mut out: Vec<Vec<u8>> = Vec::new();
        let mut i: usize = 0;
        while i < bytes.len()
            invariant
                0 <= i <= bytes.len(),
                self.wf(),
                self@ == read_all(start, bytes@.subrange(0, i as int)).0,
                out.len() == read_all(start, bytes@.subrange(0, i as int)).1.len(),
                forall|k: int|
                    0 <= k < out.len() ==> #[trigger] out@[k]@ == read_all(
                        start,
                        bytes@.subrange(0, i as int),
                    ).1[k],
            decreases bytes.len() - i,
        {
            let ghost before = out@;
            assert(bytes@.subrange(0, i + 1).drop_last() =~= bytes@.subrange(0, i as int));
            match self.push_byte(bytes[i]) {
                Some(p) => {
                    out.push(p);
                },
                None => {},
            }
            assert forall|k: int| 0 <= k < before.len() implies out@[k] == before[k] by {}
            i = i + 1;
        }
        assert(bytes@.subrange(0, bytes.len() as int) =~= bytes@);
        out
    }
}

proof fn lemma_read_framed(p: Seq<u8>, k: int)
    requires
        1 <= p.len() <= 255,
        0 <= k < p.len(),
    ensures
        read_all(idle(), seq![p.len() as u8] + p.subrange(0, k)) == (
            ReaderModel { remaining: (p.len() - k) as nat, packet: p.subrange(0, k) },
            Seq::<Seq<u8>>::empty(),
        ),
    decreases k,
{
    let bytes = seq![p.len() as u8] + p.subrange(0, k);
    if k == 0 {
        assert(bytes =~= seq![p.len() as u8]);
        assert(bytes.drop_last() =~= Seq::<u8>::empty());
        assert(bytes.last() == p.len() as u8);
        assert(p.subrange(0, 0) =~= Seq::<u8>::empty());
        assert(read_all(idle(), bytes.drop_last()) == (idle(), Seq::<Seq<u8>>::empty()));
    } else {
        lemma_read_framed(p, k - 1);
        assert(bytes.drop_last() =~= seq![p.len() as u8] + p.subrange(0, k - 1));
        assert(bytes.last() == p[k - 1]);
        assert(p.subrange(0, k - 1).push(p[k - 1]) =~= p.subrange(0, k));
    }
}

/// A framed message read from the idle state comes out whole, once, and
/// leaves the reader idle.
pub proof fn lemma_frame_round_trip(p: Seq<u8>)
    requires
        1 <= p.len() <= 255,
    ensures
        read_all(idle(), seq![p.len() as u8] + p) == (idle(), seq![p]),
{
    let n = p.len() as int;
    lemma_read_framed(p, n - 1);
    let bytes = seq![p.len() as u8] + p;
    assert(bytes.drop_last() =~= seq![p.len() as u8] + p.subrange(0, n - 1));
    assert(p.subrange(0, n - 1).push(p[n - 1]) =~= p);
    assert(Seq::<Seq<u8>>::empty().push(p) =~= seq![p]);
}

} // verus!
