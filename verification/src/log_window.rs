//! The lines the log window keeps: the most recent events, up to its capacity.
use vstd::prelude::*;
use crate::log_entry::LogEntry;

verus! {

/// The number of log lines the window keeps.
pub const LOG_WINDOW_CAPACITY: usize = 1000;

/// The parsed lines shown by the log window, oldest first.
pub struct LogLines {
    pub lines: Vec<LogEntry>,
}

impl LogLines {
    pub fn new() -> (l: LogLines)
        ensures
            l.lines@.len() == 0,
    {
        LogLines { lines: Vec::new() }
    }

    /// Take one batch of received events, at most `capacity` of them (the caller
    /// leaves the rest in the channel for the next batch, so a busy sender cannot
    /// hold the window up): each is parsed and appended, then the oldest lines are
    /// dropped until at most `capacity` remain. Returns whether any event was taken.
    pub fn drain_batch(&mut self, received: Vec<String>, capacity: usize) -> (changed: bool)
        requires
            received@.len() <= capacity,
        ensures
            changed == (received@.len() > 0),
            ({
                let taken = received@.len() as int;
                let appended = old(self).lines@.len() + taken;
                &&& final(self).lines@.len() == (if appended <= capacity { appended } else { capacity as int })
                &&& forall|k: int| 0 <= k < final(self).lines@.len() ==> {
                    let j = appended - final(self).lines@.len() + k;
                    if j < old(self).lines@.len() {
                        #[trigger] final(self).lines@[k] == old(self).lines@[j]
                    } else {
                        final(self).lines@[k].is_parse_of(vstd::utf8::encode_utf8(received@[j - old(self).lines@.len()]@))
                    }
                }
            }),
    {
        let ghost before = self.lines@;
        let ghost recv = received@;
        let mut appended: Vec<LogEntry> = Vec::new();
        std::mem::swap(&mut appended, &mut self.lines);
        let mut rest = received;
        let mut taken: usize = 0;
        let mut changed = false;
        while taken < capacity && rest.len() > 0
            invariant
                taken <= capacity,
                taken <= recv.len(),
                rest@ == recv.subrange(taken as int, recv.len() as int),
                appended@.len() == before.len() + taken,
                forall|k: int| 0 <= k < before.len() ==> #[trigger] appended@[k] == before[k],
                forall|k: int| before.len() <= k < appended@.len() ==> (#[trigger] appended@[k]).is_parse_of(vstd::utf8::encode_utf8(recv[k - before.len()]@)),
                changed == (taken > 0),
            decreases capacity - taken,
        {
            let line = rest.remove(0);
            proof {
                assert(line == recv[taken as int]);
            }
            appended.push(LogEntry::from_ansi(line.as_str()));
            taken = taken + 1;
            changed = true;
            proof {
                assert(rest@ =~= recv.subrange(taken as int, recv.len() as int));
            }
        }
        let n = appended.len();
        if n > capacity {
            let ghost full = appended@;
            let kept = appended.split_off(n - capacity);
            self.lines = kept;
            proof {
                assert(self.lines@ =~= full.skip(n - capacity));
            }
        } else {
            self.lines = appended;
        }
        changed
    }
}

} // verus!
