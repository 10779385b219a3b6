//! DNS messages over a byte stream: each one after a 16-bit length.

use vstd::prelude::*;
use crate::codec::copy_slice;
use crate::message::Message;
use crate::record::u16_at;

verus! {

/// Whether `b` starts with a whole frame: a length, then that many bytes.
pub open spec fn has_frame(b: Seq<u8>) -> bool {
    b.len() >= 2 && b.len() >= u16_at(b, 0) + 2
}

/// Collects bytes from a stream and cuts them into messages.
pub struct MessageReader {
    buffer: Vec<u8>,
}

impl View for MessageReader {
    type V = Seq<u8>;

    /// The bytes received and not yet taken out.
    closed spec fn view(&self) -> Seq<u8> {
        self.buffer@
    }
}

impl MessageReader {
    pub fn new() -> (r: MessageReader)
        ensures
            r@ == Seq::<u8>::empty(),
    {
        MessageReader { buffer: Vec::new() }
    }

    /// Add bytes read from the stream.
    pub fn push_bytes(&mut self, data: &[u8])
        ensures
            final(self)@ == old(self)@ + data@,
    {
        let mut more = copy_slice(data);
        self.buffer.append(&mut more);
    }

    /// Take out the first frame's message bytes, if a whole frame is there.
    pub fn pop_message(&mut self) -> (r: Option<Vec<u8>>)
        ensures
            r is Some <==> has_frame(old(self)@),
            r matches Some(v) ==> v@ == old(self)@.subrange(2, 2 + u16_at(old(self)@, 0))
                && final(self)@ == old(self)@.skip(2 + u16_at(old(self)@, 0)),
            r is None ==> final(self)@ == old(self)@,
    {
        if self.buffer.len() < 2 {
            return None;
        }
        let size = (self.buffer[0] as usize) * 256 + (self.buffer[1] as usize);
        proof {
            assert(size == u16_at(self.buffer@, 0));
        }
        if self.buffer.len() - 2 < size {
            return None;
        }
        let mut data: Vec<u8> = Vec::new();
        let mut rest: Vec<u8> = Vec::new();
        let n = self.buffer.len();
        let mut i: usize = 2;
        while i < n
            invariant
                n == self.buffer@.len(),
                self.buffer@ == old(self)@,
                2 <= i <= n,
                size + 2 <= n,
                i <= size + 2 ==> data@ == self.buffer@.subrange(2, i as int) && rest@.len() == 0,
                i > size + 2 ==> data@ == self.buffer@.subrange(2, size + 2) && rest@
                    == self.buffer@.subrange(size + 2, i as int),
            decreases n - i,
        {
            if i < size + 2 {
                data.push(self.buffer[i]);
            } else {
                rest.push(self.buffer[i]);
            }
            i = i + 1;
            proof {
                if i <= size + 2 {
                    assert(data@ =~= self.buffer@.subrange(2, i as int));
                } else {
                    assert(rest@ =~= self.buffer@.subrange(size + 2, i as int));
                }
            }
        }
        proof {
            assert(rest@ =~= self.buffer@.skip(size + 2));
        }
        self.buffer = rest;
        Some(data)
    }

    /// Take out every whole frame and decode it; frames that are no message
    /// are dropped. What is left holds no whole frame.
    pub fn pop_all(&mut self) -> (r: Vec<Message>)
        ensures
            !has_frame(final(self)@),
            final(self)@.len() <= old(self)@.len(),
    {
        let mut res: Vec<Message> = Vec::new();
        loop
            invariant
                self@.len() <= old(self)@.len(),
            decreases self@.len(),
        {
            match self.pop_message() {
                None => {
                    return res;
                },
                Some(x) => {
                    match Message::decode(x) {
                        Ok(msg) => res.push(msg),
                        Err(_) => {},
                    }
                },
            }
        }
    }
}

} // verus!
