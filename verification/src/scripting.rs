//! What to tell the host while a script runs.

use vstd::prelude::*;
use vstd::string::StringExecFns;

verus! {

/// The line that reports one debug message: where it came from, the
/// position in square brackets, and the text. A message from no named
/// source is the script's.
pub open spec fn debug_text(source: Option<Seq<char>>, position: Seq<char>, text: Seq<char>) -> Seq<
    char,
> {
    (match source {
        Some(name) => name,
        None => "<script>"@,
    }) + ":["@ + position + "] "@ + text
}

/// The line that reports one debug message.
pub fn debug_line(source: Option<&str>, position: &str, text: &str) -> (line: String)
    ensures
        line@ == debug_text(
            match source {
                Some(name) => Some(name@),
                None => None,
            },
            position@,
            text@,
        ),
{
    let mut line = match source {
        Some(name) => String::from_str(name),
        None => String::from_str("<script>"),
    };
    line.append(":[");
    line.append(position);
    line.append("] ");
    line.append(text);
    line
}

/// Whether `n` is 1, 10, 100 and so on.
pub open spec fn is_power_of_ten(n: int) -> bool
    decreases n,
{
    n == 1 || (n >= 10 && n % 10 == 0 && is_power_of_ten(n / 10))
}

/// Whether the count of operations `ops` is one at which the clock is
/// looked at: every `interval` operations.
pub open spec fn is_checkpoint(interval: u64, ops: u64) -> bool {
    interval > 0 && ops % interval == 0
}

/// Whether progress is reported at `ops` operations, `elapsed` milliseconds
/// after the last report: at a checkpoint, a tenth of a second or more
/// after it.
pub open spec fn is_reported(interval: u64, ops: u64, elapsed: u128) -> bool {
    is_checkpoint(interval, ops) && elapsed >= 100
}

/// The interval after `ops` operations. At a checkpoint that comes less than
/// 50 milliseconds after the last report, checkpoints become ten times
/// rarer; at one that comes half a second or more after it, ten times
/// more frequent, down to every operation.
pub open spec fn interval_after(interval: u64, ops: u64, elapsed: u128) -> int {
    if !is_checkpoint(interval, ops) {
        interval as int
    } else if elapsed < 50 {
        interval * 10
    } else if elapsed >= 500 && interval > 1 {
        (interval / 10) as int
    } else {
        interval as int
    }
}

/// Decides when a running script reports its progress, so that reports
/// come some ten times a second however fast the script runs.
pub struct Progress {
    interval: u64,
}

impl Progress {
    #[verifier::type_invariant]
    spec fn well_formed(self) -> bool {
        is_power_of_ten(self.interval as int)
    }

    /// The number of operations from one checkpoint to the next.
    pub closed spec fn checkpoint_interval(&self) -> u64 {
        self.interval
    }

    /// Checkpoints every thousand operations.
    pub fn new() -> (progress: Self)
        ensures
            progress.checkpoint_interval() == 1000,
    {
        proof {
            reveal_with_fuel(is_power_of_ten, 5);
        }
        Progress { interval: 1000 }
    }

    /// The number of operations from one checkpoint to the next.
    pub fn interval(&self) -> (interval: u64)
        ensures
            interval == self.checkpoint_interval(),
            interval >= 1,
    {
        proof {
            use_type_invariant(self);
        }
        self.interval
    }

    /// Whether the clock is looked at after `ops` operations.
    pub fn is_checkpoint(&self, ops: u64) -> (b: bool)
        ensures
            b == is_checkpoint(self.checkpoint_interval(), ops),
    {
        proof {
            use_type_invariant(self);
        }
        ops % self.interval == 0
    }

    /// Takes note that the script has run `ops` operations, `elapsed_ms`
    /// milliseconds after the last report, and says whether to report
    /// now. The clock starts anew with every report.
    pub fn on_progress(&mut self, ops: u64, elapsed_ms: u128) -> (report: bool)
        requires
            interval_after(old(self).checkpoint_interval(), ops, elapsed_ms) <= u64::MAX,
        ensures
            report == is_reported(old(self).checkpoint_interval(), ops, elapsed_ms),
            final(self).checkpoint_interval() == interval_after(
                old(self).checkpoint_interval(),
                ops,
                elapsed_ms,
            ),
    {
        proof {
            use_type_invariant(&*self);
        }
        let interval = self.interval;
        if ops % interval != 0 {
            return false;
        }
        if elapsed_ms < 50 {
            assert(is_power_of_ten(interval * 10)) by {
                assert((interval * 10) / 10 == interval);
            }
            self.interval = interval * 10;
            false
        } else if elapsed_ms >= 100 {
            if elapsed_ms >= 500 && interval > 1 {
                self.interval = interval / 10;
            }
            true
        } else {
            false
        }
    }
}

} // verus!
