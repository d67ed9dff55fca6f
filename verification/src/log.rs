//! Fixed-capacity storage for the kernel log. Messages are formatted and
//! mirrored to an output device outside the library; this holds the stored
//! text and the capacity rule: a message that no longer fits is refused,
//! never truncated.

use vstd::prelude::*;
use vstd::string::StringSliceAdditionalSpecFns;

verus! {

/// Log storage with a fixed byte capacity.
pub struct StaticLog {
    content: Vec<u8>,
    capacity: usize,
}

impl StaticLog {
    /// The stored text, as UTF-8 bytes.
    pub closed spec fn content_view(&self) -> Seq<u8> {
        self.content@
    }

    /// The fixed capacity, in bytes.
    pub closed spec fn capacity_spec(&self) -> usize {
        self.capacity
    }

    /// The stored text never exceeds the capacity.
    pub open spec fn wf(&self) -> bool {
        self.content_view().len() <= self.capacity_spec()
    }

    /// An empty log of the given capacity.
    pub fn new(capacity: usize) -> (log: Self)
        ensures
            log.wf(),
            log.capacity_spec() == capacity,
            log.content_view() == Seq::<u8>::empty(),
    {
        StaticLog { content: Vec::new(), capacity }
    }

    /// How many more bytes fit.
    pub fn remaining_capacity(&self) -> (r: usize)
        requires
            self.wf(),
        ensures
            r == self.capacity_spec() - self.content_view().len(),
    {
        self.capacity - self.content.len()
    }

    /// Append a message: stored whole when it fits, refused whole when it
    /// does not.
    pub fn write_str(&mut self, s: &str) -> (r: Result<(), ()>)
        requires
            old(self).wf(),
        ensures
            final(self).wf(),
            final(self).capacity_spec() == old(self).capacity_spec(),
            if s.spec_bytes().len() <= old(self).capacity_spec() - old(self).content_view().len() {
                r is Ok && final(self).content_view() == old(self).content_view()
                    + s.spec_bytes()
            } else {
                r is Err && final(self).content_view() == old(self).content_view()
            },
    {
        let b = s.as_bytes();
        if b.len() > self.capacity - self.content.len() {
            return Err(());
        }
        self.content.extend_from_slice(b);
        Ok(())
    }
}

/// Append a message to the log, as the kernel's log macro does. Running out
/// of log space is fatal there, so the message is required to fit.
pub fn print(log: &mut StaticLog, msg: &str)
    requires
        old(log).wf(),
        msg.spec_bytes().len() <= old(log).capacity_spec() - old(log).content_view().len(),
    ensures
        final(log).wf(),
        final(log).capacity_spec() == old(log).capacity_spec(),
        final(log).content_view() == old(log).content_view() + msg.spec_bytes(),
{
    match log.write_str(msg) {
        Ok(_) => {},
        Err(_) => {
            proof {
                assert(false);
            }
        },
    }
}

} // verus!
