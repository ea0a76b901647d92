use vstd::prelude::*;

verus! {

#[derive(Clone, Copy, Debug, PartialEq, Eq, Structural)]
pub enum ChannelError {
    /// The channel was already written on this tick.
    AlreadyWritten { tick: u64 },
    /// The tick comes before the channel's last write.
    OutOfOrder { tick: u64, last: u64 },
}

/// A one-slot channel with last-value semantics: a write replaces the
/// payload, every read sees the latest one, and at most one write lands per
/// tick, in increasing tick order.
pub struct Channel<T> {
    tag: u64,
    value: Option<T>,
    last_write: Option<u64>,
}

impl<T> Channel<T> {
    pub closed spec fn type_tag(&self) -> u64 {
        self.tag
    }

    pub closed spec fn payload(&self) -> Option<T> {
        self.value
    }

    /// The tick of the latest write, if any.
    pub closed spec fn written_at(&self) -> Option<u64> {
        self.last_write
    }

    /// What `write` on `tick` answers for a channel last written at `last`.
    pub open spec fn write_result(last: Option<u64>, tick: u64) -> Result<(), ChannelError> {
        match last {
            Some(l) => if l == tick {
                Err(ChannelError::AlreadyWritten { tick })
            } else if tick < l {
                Err(ChannelError::OutOfOrder { tick, last: l })
            } else {
                Ok(())
            },
            None => Ok(()),
        }
    }

    /// An empty channel carrying payloads of type `tag`.
    pub fn new(tag: u64) -> (c: Channel<T>)
        ensures
            c.type_tag() == tag,
            c.payload() == None::<T>,
            c.written_at() == None::<u64>,
    {
        Channel { tag, value: None, last_write: None }
    }

    pub fn tag(&self) -> (r: u64)
        ensures
            r == self.type_tag(),
    {
        self.tag
    }

    pub fn last_tick(&self) -> (r: Option<u64>)
        ensures
            r == self.written_at(),
    {
        self.last_write
    }

    /// Publishes `payload` on `tick`, replacing the previous one.
    pub fn write(&mut self, tick: u64, payload: T) -> (r: Result<(), ChannelError>)
        ensures
            r == Self::write_result(old(self).written_at(), tick),
            final(self).type_tag() == old(self).type_tag(),
            r is Ok ==> final(self).payload() == Some(payload) && final(self).written_at() == Some(tick),
            r is Err ==> final(self).payload() == old(self).payload() && final(self).written_at()
                == old(self).written_at(),
    {
        match self.last_write {
            Some(l) => {
                if l == tick {
                    return Err(ChannelError::AlreadyWritten { tick });
                }
                if tick < l {
                    return Err(ChannelError::OutOfOrder { tick, last: l });
                }
            },
            None => {},
        }
        self.value = Some(payload);
        self.last_write = Some(tick);
        Ok(())
    }

    /// The latest payload; consumers share it and never change it.
    pub fn latest(&self) -> (r: Option<&T>)
        ensures
            match r {
                Some(v) => self.payload() == Some(*v),
                None => self.payload() == None::<T>,
            },
    {
        match &self.value {
            Some(v) => Some(v),
            None => None,
        }
    }
}

} // verus!
