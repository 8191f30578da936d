//! An in-memory channel for tests: whatever is written accumulates in one
//! buffer, and reads hand out a canned byte sequence, front to back.

use vstd::prelude::*;

use crate::error::SbtError;
use crate::uart::Uart;

verus! {

/// A scripted channel.  `set_read_data` loads the bytes that `read` will
/// hand out; `get_written_data` shows everything written so far.
pub struct MockUart {
    write_data: Vec<u8>,
    read_data: Vec<u8>,
}

impl MockUart {
    /// A channel with nothing written and nothing to read.
    pub fn new() -> (r: MockUart)
        ensures
            r.written() == Seq::<u8>::empty(),
            r.inbound() == Seq::<u8>::empty(),
            r.faults() == Seq::<bool>::empty(),
    {
        MockUart { write_data: Vec::new(), read_data: Vec::new() }
    }

    /// Replaces the bytes that `read` will hand out.
    pub fn set_read_data(&mut self, data: Vec<u8>)
        ensures
            final(self).inbound() == data@,
            final(self).written() == old(self).written(),
            final(self).faults() == old(self).faults(),
    {
        self.read_data = data;
    }

    /// A copy of everything written to the channel so far.
    pub fn get_written_data(&self) -> (r: Vec<u8>)
        ensures
            r@ == self.written(),
    {
        let mut r: Vec<u8> = Vec::new();
        let mut i: usize = 0;
        while i < self.write_data.len()
            invariant
                i <= self.write_data@.len(),
                r@ == self.write_data@.take(i as int),
            decreases self.write_data@.len() - i,
        {
            r.push(self.write_data[i]);
            proof {
                assert(r@ =~= self.write_data@.take(i + 1 as int));
            }
            i = i + 1;
        }
        proof {
            assert(self.write_data@.take(self.write_data@.len() as int) =~= self.write_data@);
        }
        r
    }
}

impl Uart for MockUart {
    closed spec fn written(&self) -> Seq<u8> {
        self.write_data@
    }

    closed spec fn inbound(&self) -> Seq<u8> {
        self.read_data@
    }

    closed spec fn faults(&self) -> Seq<bool> {
        Seq::empty()
    }

    fn write(&mut self, data: &[u8]) -> Result<usize, SbtError> {
        self.write_data.extend_from_slice(data);
        Ok(data.len())
    }

    fn read(&mut self) -> Option<u8> {
        if self.read_data.len() == 0 {
            None
        } else {
            let b = self.read_data.remove(0);
            proof {
                assert(self.read_data@ =~= old(self).read_data@.skip(1));
            }
            Some(b)
        }
    }
}

} // verus!
