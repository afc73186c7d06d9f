//! Log output for the log window: each formatted event is gathered into one
//! message and handed to the window's channel without blocking.
use std::sync::mpsc::{SyncSender, TrySendError};
use vstd::prelude::*;
use vstd::utf8::*;

verus! {

/// `std::sync::mpsc::SyncSender`, the sending half of the log window's channel.
#[verifier::external_type_specification]
#[verifier::external_body]
#[verifier::reject_recursive_types(T)]
pub struct ExSyncSender<T>(SyncSender<T>);

/// The text that `String::from_utf8_lossy` makes of the bytes.
pub uninterp spec fn lossy_utf8(bytes: Seq<u8>) -> Seq<char>;

/// `String::from_utf8_lossy(bytes).into_owned()`: the bytes read as UTF-8, each
/// invalid sequence replaced by U+FFFD. The std documentation states that valid
/// UTF-8 is read as it is; the replacement of invalid sequences is left to the
/// name `lossy_utf8`.
#[verifier::external_body]
fn utf8_lossy(bytes: &[u8]) -> (s: String)
    ensures
        s@ == lossy_utf8(bytes@),
        valid_utf8(bytes@) ==> s@ == decode_utf8(bytes@),
{
    String::from_utf8_lossy(bytes).into_owned()
}

/// `SyncSender::clone`: another sender on the same channel. Nothing is stated of
/// the handle: the documentation does not settle that it equals the original.
#[verifier::external_body]
fn clone_sender(sender: &SyncSender<String>) -> (s: SyncSender<String>) {
    sender.clone()
}

/// `SyncSender::try_send`: offers the message to the channel without waiting.
/// Whether the channel takes it depends on the other end and is not stated; when it
/// does not (`TrySendError::Full` or `TrySendError::Disconnected`), the error hands
/// the message back, as std documents, and so does this wrapper.
#[verifier::external_body]
fn try_send_message(sender: &SyncSender<String>, message: String) -> (r: Result<(), String>)
    ensures
        r matches Err(m) ==> m == message,
{
    match sender.try_send(message) {
        Ok(()) => Ok(()),
        Err(TrySendError::Full(m)) => Err(m),
        Err(TrySendError::Disconnected(m)) => Err(m),
    }
}

/// Makes a writer for each log event, all feeding one channel.
pub struct WindowLogWriter {
    pub sender: SyncSender<String>,
}

impl WindowLogWriter {
    pub fn new(sender: SyncSender<String>) -> (w: WindowLogWriter)
        ensures
            w.sender == sender,
    {
        WindowLogWriter { sender }
    }

    /// A writer for one event, with nothing written yet, holding a clone of this
    /// writer's sender.
    pub fn make_writer(&self) -> (w: LogEventWriter)
        ensures
            w.bytes@ == Seq::<u8>::empty(),
    {
        LogEventWriter { sender: clone_sender(&self.sender), bytes: Vec::new() }
    }
}

/// Gathers the formatted text of one log event.
pub struct LogEventWriter {
    pub sender: SyncSender<String>,
    pub bytes: Vec<u8>,
}

impl LogEventWriter {
    /// Take all the bytes; all are accepted.
    pub fn write(&mut self, bytes: &[u8]) -> (n: usize)
        ensures
            final(self).bytes@ == old(self).bytes@ + bytes@,
            n == bytes@.len(),
            final(self).sender == old(self).sender,
    {
        crate::utf8_text::extend_from_range(&mut self.bytes, bytes, 0, bytes.len());
        proof {
            assert(bytes@.subrange(0, bytes@.len() as int) =~= bytes@);
        }
        bytes.len()
    }

    /// Nothing is buffered elsewhere, so there is nothing to flush.
    pub fn flush(&mut self)
        ensures
            *final(self) == *old(self),
    {
    }

    /// The message the event becomes: `None` when nothing was written, otherwise the
    /// bytes read as UTF-8 (embedded newlines kept).
    pub fn message(&self) -> (m: Option<String>)
        ensures
            self.bytes@.len() == 0 ==> m is None,
            self.bytes@.len() > 0 ==> (m matches Some(s) && s@ == lossy_utf8(self.bytes@)),
            self.bytes@.len() > 0 && valid_utf8(self.bytes@) ==> (m matches Some(s) && s@ == decode_utf8(self.bytes@)),
    {
        if self.bytes.len() == 0 {
            None
        } else {
            Some(utf8_lossy(self.bytes.as_slice()))
        }
    }

    /// The event is complete: its message, if any, is offered to the channel without
    /// waiting. `Ok(false)`: nothing was written, so nothing is offered; `Ok(true)`:
    /// the channel took the message; `Err(m)`: the channel refused the message `m`
    /// and handed it back.
    pub fn finish(&self) -> (r: Result<bool, String>)
        ensures
            self.bytes@.len() == 0 ==> r == Ok::<bool, String>(false),
            self.bytes@.len() > 0 ==> r != Ok::<bool, String>(false),
            self.bytes@.len() > 0 ==> (r matches Err(m) ==> m@ == lossy_utf8(self.bytes@)),
            self.bytes@.len() > 0 && valid_utf8(self.bytes@) ==> (r matches Err(m) ==> m@ == decode_utf8(self.bytes@)),
    {
        match self.message() {
            Some(m) => match try_send_message(&self.sender, m) {
                Ok(()) => Ok(true),
                Err(back) => Err(back),
            },
            None => Ok(false),
        }
    }
}

} // verus!
