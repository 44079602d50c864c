//! Record-stream rendezvous: a receiver that waits for a peer's stream
//! to be registered under a channel key and then proxies its records in
//! order.

use vstd::prelude::*;
use crate::secret_sharing::Role;
use crate::steps::StepPath;

verus! {

/// The key one record stream rendezvouses under: the peer it comes from
/// and the step path of the channel.
#[derive(Clone, Debug, PartialEq, Eq)]
pub struct StreamKey {
    pub peer: Role,
    pub step: StepPath,
}

/// The outcome of polling a record stream.
#[derive(Clone, Copy, Debug, PartialEq, Eq)]
pub enum ReceivePoll<T> {
    /// The peer's stream has not been registered yet.
    Pending,
    /// The next record, in record order.
    Item(T),
    /// The stream is exhausted.
    End,
}

/// Inner state for [`ReceiveRecords`].
pub enum ReceiveRecordsInner<T> {
    /// Waiting for the stream registered under the key to appear.
    Pending(StreamKey),
    /// The stream was received; records are proxied from it in order,
    /// starting at the cursor.
    Ready(Vec<T>, usize),
}

/// A stream of records addressed to one channel.
///
/// Until the peer registers its stream under the key, every poll reports
/// pending; once the stream arrives it is moved in and this acts as a
/// proxy to it, yielding the records in record-id order.
pub struct ReceiveRecords<T> {
    pub inner: ReceiveRecordsInner<T>,
}

impl<T: Copy> ReceiveRecords<T> {
    /// Still waiting for the peer's stream.
    pub open spec fn is_pending(self) -> bool {
        self.inner is Pending
    }

    /// The records not yet yielded.
    pub open spec fn remaining(self) -> Seq<T> {
        match self.inner {
            ReceiveRecordsInner::Pending(_) => Seq::empty(),
            ReceiveRecordsInner::Ready(items, pos) => if pos as int <= items@.len() {
                items@.skip(pos as int)
            } else {
                Seq::empty()
            },
        }
    }

    /// A receiver waiting on `key`.
    pub fn new(key: StreamKey) -> (r: Self)
        ensures
            r.inner == ReceiveRecordsInner::<T>::Pending(key),
    {
        ReceiveRecords { inner: ReceiveRecordsInner::Pending(key) }
    }

    /// One poll. `lookup` is what the shared stream collection currently
    /// holds under this receiver's key: nothing while the peer has not
    /// registered, the whole record stream once it has.
    ///
    /// While pending with no stream, the poll stays pending. The first
    /// poll that finds the stream moves it in and immediately yields its
    /// first record; after that, records come out one per poll, in order,
    /// then `End`.
    pub fn poll_next(&mut self, lookup: Option<Vec<T>>) -> (r: ReceivePoll<T>)
        ensures
            match old(self).inner {
                ReceiveRecordsInner::Pending(key) => match lookup {
                    Option::None => r is Pending && final(self).inner
                        == ReceiveRecordsInner::<T>::Pending(key),
                    Option::Some(items) => {
                        &&& final(self).remaining() == items@.skip(
                            if items@.len() > 0 { 1int } else { 0int })
                        &&& !final(self).is_pending()
                        &&& if items@.len() > 0 {
                            r == ReceivePoll::Item(items@[0])
                        } else {
                            r is End
                        }
                    },
                },
                ReceiveRecordsInner::Ready(items, pos) => {
                    &&& !final(self).is_pending()
                    &&& if pos < items@.len() {
                        r == ReceivePoll::Item(items@[pos as int]) && final(self).remaining()
                            == items@.skip(pos + 1)
                    } else {
                        r is End && final(self).remaining() == Seq::<T>::empty()
                    }
                },
            },
    {
        let mut inner = ReceiveRecordsInner::Ready(Vec::new(), 0);
        core::mem::swap(&mut inner, &mut self.inner);
        match inner {
            ReceiveRecordsInner::Pending(key) => match lookup {
                Option::None => {
                    self.inner = ReceiveRecordsInner::Pending(key);
                    ReceivePoll::Pending
                },
                Option::Some(items) => {
                    if items.len() > 0 {
                        let first = items[0];
                        self.inner = ReceiveRecordsInner::Ready(items, 1);
                        ReceivePoll::Item(first)
                    } else {
                        proof {
                            assert(items@.skip(0) =~= Seq::<T>::empty());
                        }
                        self.inner = ReceiveRecordsInner::Ready(items, 0);
                        ReceivePoll::End
                    }
                },
            },
            ReceiveRecordsInner::Ready(items, pos) => {
                if pos < items.len() {
                    let item = items[pos];
                    self.inner = ReceiveRecordsInner::Ready(items, pos + 1);
                    ReceivePoll::Item(item)
                } else {
                    proof {
                        if pos <= items.len() {
                            assert(items@.skip(pos as int) =~= Seq::<T>::empty());
                        }
                    }
                    self.inner = ReceiveRecordsInner::Ready(items, pos);
                    ReceivePoll::End
                }
            },
        }
    }
}

} // verus!
