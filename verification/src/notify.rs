use vstd::prelude::*;

verus! {

/// The change notifier, as a generation counter: the scheduler bumps the
/// generation after every status transition, and an observer re-reads state
/// whenever the generation differs from the last one it saw.  It carries no
/// payload — a woken observer re-derives what changed by reading statuses.
pub struct ChangeNotifier {
    pub generation: u64,
}

impl ChangeNotifier {
    /// A fresh notifier at generation zero.
    pub fn new() -> (n: Self)
        ensures
            n.generation == 0,
    {
        ChangeNotifier { generation: 0 }
    }

    /// Record that something changed: the generation strictly increases, so
    /// every observer that saw an earlier generation sees the change.
    pub fn notify(&mut self)
        requires
            old(self).generation < u64::MAX,
        ensures
            final(self).generation == old(self).generation + 1,
    {
        self.generation = self.generation + 1;
    }

    /// Has anything changed since the observer last looked?
    pub fn changed_since(&self, seen: u64) -> (b: bool)
        ensures
            b == (self.generation != seen),
    {
        self.generation != seen
    }
}

/// Law: the notifier is level-triggered — an observer that recorded the
/// generation before some later notification always observes a change
/// afterwards, because the generation only ever grows.
pub proof fn lemma_notification_visible(seen: u64, before: u64, after: u64)
    requires
        seen <= before,
        before < after,
    ensures
        after != seen,
{
}

} // verus!
