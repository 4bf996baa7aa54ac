use vstd::prelude::*;

verus! {

/// Resource handles whose disposal waits until the current reconciliation pass is over.
///
/// The host flushes the queue once the synchronous work that filled it has returned,
/// and disposes each handle it hands back, in order.
pub struct DisposalQueue {
    pending: Vec<u64>,
}

impl View for DisposalQueue {
    type V = Seq<u64>;

    closed spec fn view(&self) -> Seq<u64> {
        self.pending@
    }
}

impl DisposalQueue {
    pub fn new() -> (q: DisposalQueue)
        ensures
            q@ == Seq::<u64>::empty(),
    {
        DisposalQueue { pending: Vec::new() }
    }

    pub fn is_empty(&self) -> (r: bool)
        ensures
            r == (self@.len() == 0),
    {
        self.pending.len() == 0
    }

    /// Hands out every queued handle, oldest first, and leaves the queue empty.
    pub fn flush(&mut self) -> (r: Vec<u64>)
        ensures
            r@ == old(self)@,
            final(self)@ == Seq::<u64>::empty(),
    {
        let mut taken: Vec<u64> = Vec::new();
        std::mem::swap(&mut taken, &mut self.pending);
        taken
    }
}

/// Schedules the disposal of `task`'s handles for after the current pass.
pub fn queue_microtask(queue: &mut DisposalQueue, task: Vec<u64>)
    ensures
        final(queue)@ == old(queue)@ + task@,
{
    let mut task = task;
    queue.pending.append(&mut task);
}

} // verus!
