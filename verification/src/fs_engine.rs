//! The decisions of the event loop that drives reconciliation.
//!
//! The loop itself — watching, sleeping, spawning tasks, writing files —
//! lives outside; everything it decides is here: whether an incoming event
//! is our own write echoing back, when a batch is taken for processing, and
//! how the batch accumulates meanwhile.

use crate::debouncer::{spec_push, DebouncedEntryV, DebouncedEvents, Event, EventV};
use crate::keymap::KeySet;
use vstd::prelude::*;

verus! {

/// The loop-owned state of the filesystem engine: the accumulating batch,
/// whether a patch task is in flight, and the paths recently written by the
/// engine itself, whose echoed modifications must be suppressed exactly
/// once.
pub struct FsEngine {
    /// The events accumulated since the last patch was taken.
    pub debounced: DebouncedEvents,
    /// Paths the engine has just written; the next `Modify` on each is ours.
    pub self_writes: KeySet<String>,
    /// Whether a patch task is currently running.
    pub patch_in_flight: bool,
}

impl FsEngine {
    pub open spec fn wf(&self) -> bool {
        self.debounced.wf() && self.self_writes.wf()
    }

    pub fn new() -> (r: FsEngine)
        ensures
            r.wf(),
            r.debounced@ == Map::<Seq<char>, DebouncedEntryV>::empty(),
            r.self_writes@ == Set::<Seq<char>>::empty(),
            !r.patch_in_flight,
    {
        FsEngine {
            debounced: DebouncedEvents::new(),
            self_writes: KeySet::new(),
            patch_in_flight: false,
        }
    }

    /// Handles one filesystem event: a `Modify` on a path we just wrote is
    /// our own echo and is dropped, consuming the suppression; any other
    /// event on such a path consumes the suppression but is recorded (the
    /// file was touched externally); everything else is recorded. Returns
    /// whether the event was recorded. The caller cancels any in-flight
    /// patch task before calling.
    pub fn on_fs_event(&mut self, event: Event) -> (recorded: bool)
        requires
            old(self).wf(),
        ensures
            final(self).wf(),
            final(self).patch_in_flight == old(self).patch_in_flight,
            final(self).self_writes@ == old(self).self_writes@.remove(event@.path()),
            recorded == !(old(self).self_writes@.contains(event@.path())
                && event@ matches EventV::Modify(_)),
            recorded ==> final(self).debounced@ == spec_push(old(self).debounced@, event@),
            !recorded ==> final(self).debounced@ == old(self).debounced@,
    {
        let path = event.path().clone();
        let was_ours = self.self_writes.remove(&path);
        if was_ours {
            match &event {
                Event::Modify(_) => {
                    // Our own write echoing back: suppress it, exactly once.
                    return false;
                },
                _ => {
                    // A non-modification on a self-written path is external
                    // action and goes through.
                },
            }
        }
        self.debounced.push(event);
        true
    }

    /// At a debounce timeout: if no patch task is in flight, the current
    /// batch is taken for processing (leaving an empty one) and a task is
    /// considered started; otherwise nothing happens.
    pub fn on_debounce_timeout(&mut self) -> (r: Option<DebouncedEvents>)
        requires
            old(self).wf(),
        ensures
            final(self).wf(),
            final(self).self_writes@ == old(self).self_writes@,
            match r {
                Some(batch) => !old(self).patch_in_flight && batch.wf() && batch@ == old(
                    self,
                ).debounced@ && final(self).debounced@ == Map::<
                    Seq<char>,
                    DebouncedEntryV,
                >::empty() && final(self).patch_in_flight,
                None => old(self).patch_in_flight && final(self).debounced@ == old(
                    self,
                ).debounced@ && final(self).patch_in_flight,
            },
    {
        if self.patch_in_flight {
            return None;
        }
        let mut batch = DebouncedEvents::new();
        core::mem::swap(&mut batch, &mut self.debounced);
        self.patch_in_flight = true;
        Some(batch)
    }

    /// Records that the in-flight patch task finished (or was cancelled), so
    /// the next timeout may take a batch again.
    pub fn on_patch_settled(&mut self)
        requires
            old(self).wf(),
        ensures
            final(self).wf(),
            final(self).debounced@ == old(self).debounced@,
            final(self).self_writes@ == old(self).self_writes@,
            !final(self).patch_in_flight,
    {
        self.patch_in_flight = false;
    }

    /// Records that the engine is about to write to the given path, so its
    /// echoed modification will be suppressed.
    pub fn record_self_write(&mut self, path: String)
        requires
            old(self).wf(),
        ensures
            final(self).wf(),
            final(self).debounced@ == old(self).debounced@,
            final(self).patch_in_flight == old(self).patch_in_flight,
            final(self).self_writes@ == old(self).self_writes@.insert(path@),
    {
        self.self_writes.insert(path);
    }
}

} // verus!
