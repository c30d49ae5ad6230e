use vstd::prelude::*;

verus! {

/// How far a long task has come: `value` of `total` steps, and what it is.
#[derive(Debug, Clone)]
pub struct Progress {
    pub value: u64,
    pub total: u64,
    pub message: String,
}

impl Progress {
    /// A task of `total` steps, none of them done.
    pub fn start(total: u64, message: &str) -> (r: Progress)
        ensures
            r.value == 0,
            r.total == total,
            r.message@ == message@,
    {
        Progress { value: 0, total, message: String::from_str(message) }
    }

    /// One more step done; the count stops at the largest `u64`.
    pub fn advance(&mut self)
        ensures
            final(self).value == if old(self).value < u64::MAX {
                old(self).value + 1
            } else {
                old(self).value as int
            },
            final(self).total == old(self).total,
            final(self).message == old(self).message,
    {
        self.value = self.value.saturating_add(1);
    }

    /// Whether every step is done.
    pub fn is_complete(&self) -> (r: bool)
        ensures
            r == (self.value >= self.total),
    {
        self.value >= self.total
    }
}

} // verus!
