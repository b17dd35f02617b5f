//! The transcript that stands between prover and verifier: the prover
//! appends messages, the verifier reads them in the same order, and each
//! side draws its challenges from the hash of what it has seen so far.
use vstd::prelude::*;

use crate::bigint::{le_bytes, le_nat, nat_rows, nats, UBig};
use crate::digest::{blake3_digest, digest};

verus! {

/// The bytes of one message: the digits of its elements, in order.
pub open spec fn message_bytes(message: Seq<nat>) -> Seq<u8>
    decreases message.len(),
{
    if message.len() == 0 {
        seq![]
    } else {
        message_bytes(message.drop_last()) + le_bytes(message.last())
    }
}

/// The bytes of a run of messages, in order.
pub open spec fn transcript_bytes(messages: Seq<Seq<nat>>) -> Seq<u8>
    decreases messages.len(),
{
    if messages.len() == 0 {
        seq![]
    } else {
        transcript_bytes(messages.drop_last()) + message_bytes(messages.last())
    }
}

/// The hash of a run of messages, as a number.
pub open spec fn transcript_hash(messages: Seq<Seq<nat>>) -> nat {
    le_nat(blake3_digest(transcript_bytes(messages)))
}

/// The transcript: the messages written so far, and how many of them
/// the verifier has read.
pub struct Channel {
    messages: Vec<Vec<UBig>>,
    cursor: usize,
}

impl Channel {
    /// All messages written so far.
    pub closed spec fn messages(&self) -> Seq<Seq<nat>> {
        nat_rows(self.messages@)
    }

    /// How many messages have been read.
    pub closed spec fn cursor(&self) -> nat {
        self.cursor as nat
    }

    /// No more has been read than was written.
    pub open spec fn wf(&self) -> bool {
        self.cursor() <= self.messages().len()
    }

    /// An empty transcript.
    pub fn new() -> (c: Channel)
        ensures
            c.wf(),
            c.messages() == Seq::<Seq<nat>>::empty(),
            c.cursor() == 0,
    {
        let c = Channel { messages: Vec::new(), cursor: 0 };
        assert(c.messages() =~= Seq::<Seq<nat>>::empty());
        c
    }

    /// Appends a message.
    pub fn push(&mut self, message: &Vec<UBig>)
        requires
            old(self).wf(),
        ensures
            final(self).wf(),
            final(self).messages() == old(self).messages().push(nats(message@)),
            final(self).cursor() == old(self).cursor(),
    {
        let copy = UBig::clone_vec(message);
        self.messages.push(copy);
        assert(self.messages() =~= old(self).messages().push(nats(message@)));
    }

    /// Appends a message of one element.
    pub fn push_single(&mut self, x: &UBig)
        requires
            old(self).wf(),
        ensures
            final(self).wf(),
            final(self).messages() == old(self).messages().push(seq![x@]),
            final(self).cursor() == old(self).cursor(),
    {
        let mut message: Vec<UBig> = Vec::new();
        message.push(x.clone());
        assert(nats(message@) =~= seq![x@]);
        self.messages.push(message);
        assert(self.messages() =~= old(self).messages().push(seq![x@]));
    }

    /// The next unread message, if any is left; reading moves past it.
    pub fn pull(&mut self) -> (r: Option<Vec<UBig>>)
        requires
            old(self).wf(),
        ensures
            final(self).wf(),
            final(self).messages() == old(self).messages(),
            r.is_some() <==> old(self).cursor() < old(self).messages().len(),
            r matches Some(m) ==> nats(m@) == old(self).messages()[old(self).cursor() as int]
                && final(self).cursor() == old(self).cursor() + 1,
            r.is_none() ==> final(self).cursor() == old(self).cursor(),
    {
        if self.cursor < self.messages.len() {
            let m = UBig::clone_vec(&self.messages[self.cursor]);
            self.cursor = self.cursor + 1;
            Some(m)
        } else {
            None
        }
    }

    /// How many messages have been written.
    pub fn len(&self) -> (n: usize)
        ensures
            n == self.messages().len(),
    {
        self.messages.len()
    }

    /// How many messages have been read.
    pub fn position(&self) -> (n: usize)
        ensures
            n == self.cursor(),
    {
        self.cursor
    }

    /// Drops the messages from number `len` on; none of them may have
    /// been read.
    pub fn truncate(&mut self, len: usize)
        requires
            old(self).wf(),
            old(self).cursor() <= len <= old(self).messages().len(),
        ensures
            final(self).wf(),
            final(self).messages() == old(self).messages().take(len as int),
            final(self).cursor() == old(self).cursor(),
    {
        self.messages.truncate(len);
        assert(self.messages() =~= old(self).messages().take(len as int));
    }

    /// Goes back to where `position` messages had been read.
    pub fn rewind(&mut self, position: usize)
        requires
            old(self).wf(),
            position <= old(self).cursor(),
        ensures
            final(self).wf(),
            final(self).messages() == old(self).messages(),
            final(self).cursor() == position,
    {
        self.cursor = position;
    }

    /// The hash of the first `count` messages.
    fn hash_prefix(&self, count: usize) -> (r: UBig)
        requires
            count <= self.messages().len(),
        ensures
            r@ == transcript_hash(self.messages().take(count as int)),
    {
        let ghost all = self.messages();
        let mut bytes: Vec<u8> = Vec::new();
        let mut i: usize = 0;
        assert(all.take(0) =~= Seq::<Seq<nat>>::empty());
        while i < count
            invariant
                all == self.messages(),
                i <= count <= all.len(),
                bytes@ == transcript_bytes(all.take(i as int)),
            decreases count - i,
        {
            let message = &self.messages[i];
            let ghost m = nats(message@);
            let ghost before = bytes@;
            let mut j: usize = 0;
            assert(m.take(0) =~= Seq::<nat>::empty());
            assert(before + message_bytes(m.take(0)) =~= before);
            while j < message.len()
                invariant
                    m == nats(message@),
                    j <= message.len(),
                    bytes@ == before + message_bytes(m.take(j as int)),
                decreases message.len() - j,
            {
                let mut digits = message[j].to_bytes_le();
                let ghost prev = bytes@;
                bytes.append(&mut digits);
                proof {
                    let next = m.take(j as int + 1);
                    assert(next.drop_last() =~= m.take(j as int));
                    assert(next.last() == m[j as int]);
                    assert(bytes@ =~= before + message_bytes(next));
                }
                j = j + 1;
            }
            proof {
                assert(m.take(message.len() as int) =~= m);
                let next = all.take(i as int + 1);
                assert(next.drop_last() =~= all.take(i as int));
                assert(next.last() == m);
            }
            i = i + 1;
        }
        let d = digest(&bytes);
        UBig::from_bytes_le(&d)
    }

    /// Both sides see the same: once the verifier has read every message,
    /// the hash of what it has read is the hash of what was written, so
    /// the challenges it draws are the prover's.
    pub proof fn law_same_view(messages: Seq<Seq<nat>>)
        ensures
            transcript_hash(messages.take(messages.len() as int)) == transcript_hash(messages),
    {
        assert(messages.take(messages.len() as int) =~= messages);
    }

    /// The hash of everything written so far.
    pub fn prover_hash(&self) -> (r: UBig)
        ensures
            r@ == transcript_hash(self.messages()),
    {
        assert(self.messages().take(self.messages().len() as int) =~= self.messages());
        self.hash_prefix(self.messages.len())
    }

    /// The hash of everything read so far.
    pub fn verifier_hash(&self) -> (r: UBig)
        requires
            self.wf(),
        ensures
            r@ == transcript_hash(self.messages().take(self.cursor() as int)),
    {
        self.hash_prefix(self.cursor)
    }
}

} // verus!
