//! Collapsing of raw filesystem event sequences into a minimal per-path
//! summary.
//!
//! Events arrive one at a time and are folded into a map keyed by the *newest*
//! path of each file: renames are coalesced into a single oldest-to-newest
//! record, and consecutive events on one path are combined pairwise. The
//! executable code mirrors the spec-level transition functions
//! [`spec_push`] and [`spec_push_all`], over which the laws of this module are
//! stated.

use crate::keymap::{KeyMap, Stored};
use vstd::prelude::*;

verus! {

/// Some kind of filesystem update to a single path.
#[derive(Clone, PartialEq, Eq, Debug)]
pub enum Event {
    Create(String),
    Delete(String),
    Modify(String),
    Rename(String, String),
}

/// The mathematical value of an [`Event`].
pub enum EventV {
    Create(Seq<char>),
    Delete(Seq<char>),
    Modify(Seq<char>),
    Rename(Seq<char>, Seq<char>),
}

impl View for Event {
    type V = EventV;

    open spec fn view(&self) -> EventV {
        match self {
            Event::Create(p) => EventV::Create(p@),
            Event::Delete(p) => EventV::Delete(p@),
            Event::Modify(p) => EventV::Modify(p@),
            Event::Rename(from, to) => EventV::Rename(from@, to@),
        }
    }
}

impl EventV {
    pub open spec fn is_rename(self) -> bool {
        match self {
            EventV::Rename(_, _) => true,
            _ => false,
        }
    }

    /// The path the event operates on; for renames, the old path.
    pub open spec fn path(self) -> Seq<char> {
        match self {
            EventV::Create(p) => p,
            EventV::Delete(p) => p,
            EventV::Modify(p) => p,
            EventV::Rename(p, _) => p,
        }
    }

    /// The same event moved to another path; for renames, the old path moves.
    pub open spec fn with_path(self, p: Seq<char>) -> EventV {
        match self {
            EventV::Create(_) => EventV::Create(p),
            EventV::Delete(_) => EventV::Delete(p),
            EventV::Modify(_) => EventV::Modify(p),
            EventV::Rename(_, to) => EventV::Rename(p, to),
        }
    }
}

impl Event {
    /// Gets the path this event operates on. For rename events, this will be
    /// the old path.
    pub fn path(&self) -> (r: &String)
        ensures
            r@ == self@.path(),
    {
        match self {
            Event::Create(p) => p,
            Event::Delete(p) => p,
            Event::Modify(p) => p,
            Event::Rename(p, _) => p,
        }
    }

    /// Updates the path on this event. For rename events, the old path will be
    /// changed and the new path left unaltered.
    fn with_path(self, p: String) -> (r: Self)
        ensures
            r@ == self@.with_path(p@),
    {
        match self {
            Event::Create(_) => Event::Create(p),
            Event::Delete(_) => Event::Delete(p),
            Event::Modify(_) => Event::Modify(p),
            Event::Rename(_, to) => Event::Rename(p, to),
        }
    }

    /// A copy of this event with the same view.
    pub fn duplicate(&self) -> (r: Self)
        ensures
            r@ == self@,
    {
        match self {
            Event::Create(p) => Event::Create(p.clone()),
            Event::Delete(p) => Event::Delete(p.clone()),
            Event::Modify(p) => Event::Modify(p.clone()),
            Event::Rename(from, to) => Event::Rename(from.clone(), to.clone()),
        }
    }
}

/// The view of an optional event.
pub open spec fn opt_ev(e: Option<Event>) -> Option<EventV> {
    match e {
        Some(ev) => Some(ev@),
        None => None,
    }
}

/// How two successive non-rename events on one path collapse into one. The
/// result carries `curr`, the newest path of the file after all renames.
pub open spec fn spec_debounce_two(e1: Option<EventV>, e2: EventV, curr: Seq<char>) -> EventV {
    match e1 {
        None => e2,
        Some(first) => match (first, e2) {
            // Create-then-delete is recorded as a deletion, so that a
            // create-rename-delete chain stays visible to conflict detection.
            (EventV::Create(_), EventV::Delete(_)) => EventV::Delete(curr),
            (EventV::Create(_), _) => EventV::Create(curr),
            (EventV::Delete(_), EventV::Delete(_)) => EventV::Delete(curr),
            // Delete-then-create (and the impossible delete-then-modify) is a
            // modification: the file existed before the batch and still does.
            (EventV::Delete(_), _) => EventV::Modify(curr),
            (EventV::Modify(_), EventV::Delete(_)) => EventV::Delete(curr),
            (EventV::Modify(_), _) => EventV::Modify(curr),
            // Renames never reach the table; see `spec_push`.
            (EventV::Rename(_, _), _) => e2,
        },
    }
}

/// Debounces two events, which are assumed to act on the same path. Neither of
/// the provided events may be a rename: renames are handled separately by
/// [`DebouncedEvents::push`]. `curr_path` is the newest path the events apply
/// to, extracted from a traversal of all renames.
pub fn debounce_two(event_1: Option<Event>, event_2: Event, curr_path: String) -> (r: Event)
    requires
        match event_1 {
            Some(e) => !e@.is_rename(),
            None => true,
        },
        !event_2@.is_rename(),
    ensures
        r@ == spec_debounce_two(opt_ev(event_1), event_2@, curr_path@),
{
    match event_1 {
        None => event_2,
        Some(first) => match (&first, &event_2) {
            (Event::Create(_), Event::Delete(_)) => Event::Delete(curr_path),
            (Event::Create(_), _) => Event::Create(curr_path),
            (Event::Delete(_), Event::Delete(_)) => Event::Delete(curr_path),
            (Event::Delete(_), _) => Event::Modify(curr_path),
            (Event::Modify(_), Event::Delete(_)) => Event::Delete(curr_path),
            (Event::Modify(_), _) => Event::Modify(curr_path),
            // Excluded by the precondition.
            (Event::Rename(_, _), _) => Event::Modify(curr_path),
        },
    }
}

/// What a debounced batch records for one (newest) path: the oldest path it
/// was renamed from, if any, and the single collapsed event, if any.
#[derive(Clone, PartialEq, Eq, Debug)]
pub struct DebouncedEntry {
    pub oldest: Option<String>,
    pub event: Option<Event>,
}

/// The mathematical value of a [`DebouncedEntry`].
pub struct DebouncedEntryV {
    pub oldest: Option<Seq<char>>,
    pub event: Option<EventV>,
}

impl View for DebouncedEntry {
    type V = DebouncedEntryV;

    open spec fn view(&self) -> DebouncedEntryV {
        DebouncedEntryV {
            oldest: match self.oldest {
                Some(ref o) => Some(o@),
                None => None,
            },
            event: opt_ev(self.event),
        }
    }
}

impl Stored for DebouncedEntry {
    open spec fn inv(&self) -> bool {
        true
    }

    fn duplicate(&self) -> (r: Self)
        ensures
            r@ == self@,
            r.inv(),
    {
        let oldest = match &self.oldest {
            Some(o) => Some(o.clone()),
            None => None,
        };
        let event = match &self.event {
            Some(e) => Some(e.duplicate()),
            None => None,
        };
        let r = DebouncedEntry { oldest, event };
        proof {
            assert(r@.oldest == self@.oldest);
            assert(r@.event == self@.event);
        }
        r
    }
}

/// Every entry of a debounced batch is worth forwarding (a rename, an event,
/// or both), never a rename event, and always keyed by the path the event was
/// shifted to.
pub open spec fn entry_ok(k: Seq<char>, e: DebouncedEntryV) -> bool {
    &&& (e.oldest is Some || e.event is Some)
    &&& match e.event {
        Some(ev) => !ev.is_rename() && ev.path() == k,
        None => true,
    }
}

pub open spec fn batch_ok(m: Map<Seq<char>, DebouncedEntryV>) -> bool {
    forall|k: Seq<char>| m.dom().contains(k) ==> entry_ok(k, #[trigger] m[k])
}

/// The effect of pushing one event into a debounced batch.
pub open spec fn spec_push(m: Map<Seq<char>, DebouncedEntryV>, ev: EventV) -> Map<
    Seq<char>,
    DebouncedEntryV,
> {
    match ev {
        EventV::Rename(from, to) => {
            if m.dom().contains(from) {
                let e = m[from];
                m.remove(from).insert(
                    to,
                    DebouncedEntryV {
                        oldest: match e.oldest {
                            Some(o) => Some(o),
                            None => Some(from),
                        },
                        event: match e.event {
                            Some(ex) => Some(ex.with_path(to)),
                            None => None,
                        },
                    },
                )
            } else {
                m.insert(to, DebouncedEntryV { oldest: Some(from), event: None })
            }
        },
        _ => {
            let p = ev.path();
            if m.dom().contains(p) {
                m.insert(
                    p,
                    DebouncedEntryV {
                        oldest: m[p].oldest,
                        event: Some(spec_debounce_two(m[p].event, ev, p)),
                    },
                )
            } else {
                m.insert(p, DebouncedEntryV { oldest: None, event: Some(ev) })
            }
        },
    }
}

/// The effect of pushing a sequence of events, first to last.
pub open spec fn spec_push_all(
    m: Map<Seq<char>, DebouncedEntryV>,
    evs: Seq<EventV>,
) -> Map<Seq<char>, DebouncedEntryV>
    decreases evs.len(),
{
    if evs.len() == 0 {
        m
    } else {
        spec_push_all(spec_push(m, evs[0]), evs.drop_first())
    }
}

/// The views of a sequence of events.
pub open spec fn evs_view(s: Seq<Event>) -> Seq<EventV> {
    s.map_values(|e: Event| e@)
}

pub proof fn lemma_push_preserves_batch_ok(m: Map<Seq<char>, DebouncedEntryV>, ev: EventV)
    requires
        batch_ok(m),
    ensures
        batch_ok(spec_push(m, ev)),
{
}

pub proof fn lemma_push_all_snoc(m: Map<Seq<char>, DebouncedEntryV>, s: Seq<EventV>, e: EventV)
    ensures
        spec_push_all(m, s.push(e)) == spec_push(spec_push_all(m, s), e),
    decreases s.len(),
{
    reveal_with_fuel(spec_push_all, 3);
    if s.len() == 0 {
        assert(s.push(e).drop_first() =~= Seq::<EventV>::empty());
        assert(s.push(e)[0] == e);
    } else {
        assert(s.push(e)[0] == s[0]);
        assert(s.push(e).drop_first() =~= s.drop_first().push(e));
        lemma_push_all_snoc(spec_push(m, s[0]), s.drop_first(), e);
    }
}

/// A series of debounced filesystem events, organised as a map from new paths
/// to their old paths and the single event that has occurred on each path.
pub struct DebouncedEvents {
    inner: KeyMap<String, DebouncedEntry>,
}

impl View for DebouncedEvents {
    type V = Map<Seq<char>, DebouncedEntryV>;

    closed spec fn view(&self) -> Map<Seq<char>, DebouncedEntryV> {
        self.inner@
    }
}

impl DebouncedEvents {
    pub closed spec fn wf(&self) -> bool {
        self.inner.wf() && batch_ok(self@)
    }

    /// The batch's entries in insertion order: each newest path with its
    /// record. The map view carries no order, but combining batches and
    /// building patches walk entries in this order.
    pub closed spec fn entries(&self) -> Seq<(Seq<char>, DebouncedEntryV)> {
        Seq::new(self.inner.kseq().len(), |i: int| (self.inner.kseq()[i], self.inner@[self.inner.kseq()[i]]))
    }

    pub proof fn lemma_entries(&self)
        requires
            self.wf(),
        ensures
            batch_ok(self@),
            forall|i: int|
                0 <= i < self.entries().len() ==> self@.dom().contains(#[trigger] self.entries()[i].0)
                    && self@[self.entries()[i].0] == self.entries()[i].1,
            forall|k: Seq<char>| #[trigger]
                self@.dom().contains(k) ==> exists|i: int|
                    0 <= i < self.entries().len() && #[trigger] self.entries()[i].0 == k,
            forall|i: int, j: int|
                0 <= i < j < self.entries().len() ==> self.entries()[i].0 != self.entries()[j].0,
            self@.dom().len() == self.entries().len(),
            self@.dom().finite(),
    {
        self.inner.lemma_view_props();
        self.inner.lemma_dom_len();
        assert forall|k: Seq<char>| #[trigger] self@.dom().contains(k) implies exists|i: int|
            0 <= i < self.entries().len() && #[trigger] self.entries()[i].0 == k by {
            assert(self.inner.kseq().contains(k));
            let i = choose|i: int|
                0 <= i < self.inner.kseq().len() && self.inner.kseq()[i] == k;
            assert(self.entries()[i].0 == k);
        }
        assert forall|i: int, j: int|
            0 <= i < j < self.entries().len() implies self.entries()[i].0
            != self.entries()[j].0 by {
            assert(self.inner.kseq()[i] != self.inner.kseq()[j]);
        }
    }

    /// A copy of this batch with the same contents.
    pub fn duplicate(&self) -> (r: Self)
        requires
            self.wf(),
        ensures
            r.wf(),
            r@ == self@,
            r.entries() == self.entries(),
    {
        let r = DebouncedEvents { inner: self.inner.duplicate() };
        proof {
            assert(r.entries() =~= self.entries());
        }
        r
    }

    /// Creates a new instance of [`DebouncedEvents`], with no events yet.
    pub fn new() -> (r: Self)
        ensures
            r.wf(),
            r@ == Map::<Seq<char>, DebouncedEntryV>::empty(),
    {
        DebouncedEvents { inner: KeyMap::new() }
    }

    /// Creates a new instance of [`DebouncedEvents`] with the given events,
    /// debounced in order.
    pub fn from_sequential(events: Vec<Event>) -> (r: Self)
        ensures
            r.wf(),
            r@ == spec_push_all(Map::<Seq<char>, DebouncedEntryV>::empty(), evs_view(events@)),
    {
        let mut debounced = Self::new();
        debounced.extend_from_sequential(events);
        debounced
    }

    /// Debounces a series of sequential updates into this set of debounced
    /// events. The new events are assumed to have come *after* those
    /// previously debounced.
    pub fn extend_from_sequential(&mut self, events: Vec<Event>)
        requires
            old(self).wf(),
        ensures
            final(self).wf(),
            final(self)@ == spec_push_all(old(self)@, evs_view(events@)),
    {
        let n = events.len();
        let mut i: usize = 0;
        while i < n
            invariant
                self.wf(),
                n == events@.len(),
                0 <= i <= n,
                self@ == spec_push_all(old(self)@, evs_view(events@).take(i as int)),
            decreases n - i,
        {
            proof {
                assert(evs_view(events@).take(i + 1) =~= evs_view(events@).take(i as int).push(
                    events@[i as int]@,
                ));
                lemma_push_all_snoc(old(self)@, evs_view(events@).take(i as int), events@[i as int]@);
            }
            self.push(events[i].duplicate());
            i = i + 1;
        }
        proof {
            assert(evs_view(events@).take(n as int) =~= evs_view(events@));
        }
    }

    /// Pushes a single event into this set of [`DebouncedEvents`], debouncing
    /// it against what is already recorded.
    pub fn push(&mut self, event: Event)
        requires
            old(self).wf(),
        ensures
            final(self).wf(),
            final(self)@ == spec_push(old(self)@, event@),
    {
        proof {
            lemma_push_preserves_batch_ok(old(self)@, event@);
        }
        match event {
            Event::Rename(from, to) => {
                match self.inner.remove(&from) {
                    Some(entry) => {
                        // Reinsert under the new path, using the `from` path as
                        // the oldest path unless an earlier rename already set
                        // one: all renames condense into one record.
                        let oldest = match entry.oldest {
                            Some(o) => Some(o),
                            None => Some(from),
                        };
                        // Shift the stored event to the new path.
                        let shifted = match entry.event {
                            Some(e) => Some(e.with_path(to.clone())),
                            None => None,
                        };
                        self.inner.insert(to, DebouncedEntry { oldest, event: shifted });
                    },
                    None => {
                        // A rename of a path we have seen no other events for.
                        self.inner.insert(to, DebouncedEntry { oldest: Some(from), event: None });
                    },
                }
            },
            _ => {
                let p = event.path().clone();
                match self.inner.get(&p) {
                    Some(entry) => {
                        let oldest = match &entry.oldest {
                            Some(o) => Some(o.clone()),
                            None => None,
                        };
                        let prior = match &entry.event {
                            Some(e) => Some(e.duplicate()),
                            None => None,
                        };
                        let combined = debounce_two(prior, event, p.clone());
                        self.inner.insert(p, DebouncedEntry { oldest, event: Some(combined) });
                    },
                    None => {
                        self.inner.insert(p, DebouncedEntry { oldest: None, event: Some(event) });
                    },
                }
            },
        }
    }

    /// The effect of combining a later batch into this one: the later batch's
    /// renames are applied first, then its remaining events, in entry order.
    pub open spec fn spec_combine(
        m: Map<Seq<char>, DebouncedEntryV>,
        entries: Seq<(Seq<char>, DebouncedEntryV)>,
    ) -> Map<Seq<char>, DebouncedEntryV> {
        Self::spec_combine_events(Self::spec_combine_renames(m, entries), entries)
    }

    pub open spec fn spec_combine_renames(
        m: Map<Seq<char>, DebouncedEntryV>,
        entries: Seq<(Seq<char>, DebouncedEntryV)>,
    ) -> Map<Seq<char>, DebouncedEntryV>
        decreases entries.len(),
    {
        if entries.len() == 0 {
            m
        } else {
            let (k, e) = entries[0];
            let m1 = match e.oldest {
                Some(o) => spec_push(m, EventV::Rename(o, k)),
                None => m,
            };
            Self::spec_combine_renames(m1, entries.drop_first())
        }
    }

    pub open spec fn spec_combine_events(
        m: Map<Seq<char>, DebouncedEntryV>,
        entries: Seq<(Seq<char>, DebouncedEntryV)>,
    ) -> Map<Seq<char>, DebouncedEntryV>
        decreases entries.len(),
    {
        if entries.len() == 0 {
            m
        } else {
            let (k, e) = entries[0];
            let m1 = match e.event {
                Some(ev) => spec_push(m, ev),
                None => m,
            };
            Self::spec_combine_events(m1, entries.drop_first())
        }
    }

    proof fn lemma_combine_renames_snoc(
        m: Map<Seq<char>, DebouncedEntryV>,
        s: Seq<(Seq<char>, DebouncedEntryV)>,
        p: (Seq<char>, DebouncedEntryV),
    )
        ensures
            Self::spec_combine_renames(m, s.push(p)) == ({
                let m1 = Self::spec_combine_renames(m, s);
                match p.1.oldest {
                    Some(o) => spec_push(m1, EventV::Rename(o, p.0)),
                    None => m1,
                }
            }),
        decreases s.len(),
    {
        reveal_with_fuel(DebouncedEvents::spec_combine_renames, 3);
        if s.len() == 0 {
            assert(s.push(p).drop_first() =~= Seq::<(Seq<char>, DebouncedEntryV)>::empty());
            assert(s.push(p)[0] == p);
        } else {
            assert(s.push(p)[0] == s[0]);
            assert(s.push(p).drop_first() =~= s.drop_first().push(p));
            let m1 = match s[0].1.oldest {
                Some(o) => spec_push(m, EventV::Rename(o, s[0].0)),
                None => m,
            };
            Self::lemma_combine_renames_snoc(m1, s.drop_first(), p);
        }
    }

    proof fn lemma_combine_events_snoc(
        m: Map<Seq<char>, DebouncedEntryV>,
        s: Seq<(Seq<char>, DebouncedEntryV)>,
        p: (Seq<char>, DebouncedEntryV),
    )
        ensures
            Self::spec_combine_events(m, s.push(p)) == ({
                let m1 = Self::spec_combine_events(m, s);
                match p.1.event {
                    Some(ev) => spec_push(m1, ev),
                    None => m1,
                }
            }),
        decreases s.len(),
    {
        reveal_with_fuel(DebouncedEvents::spec_combine_events, 3);
        if s.len() == 0 {
            assert(s.push(p).drop_first() =~= Seq::<(Seq<char>, DebouncedEntryV)>::empty());
            assert(s.push(p)[0] == p);
        } else {
            assert(s.push(p)[0] == s[0]);
            assert(s.push(p).drop_first() =~= s.drop_first().push(p));
            let m1 = match s[0].1.event {
                Some(ev) => spec_push(m, ev),
                None => m,
            };
            Self::lemma_combine_events_snoc(m1, s.drop_first(), p);
        }
    }

    /// Combines this set of [`DebouncedEvents`] with another, which is assumed
    /// to come after this one. The later batch's renames are applied first and
    /// its other events afterwards, so that a late rename cannot reapply over
    /// a recreation in the later batch.
    pub fn combine(&mut self, other: &DebouncedEvents)
        requires
            old(self).wf(),
            other.wf(),
        ensures
            final(self).wf(),
            final(self)@ == Self::spec_combine(old(self)@, other.entries()),
    {
        let n = other.inner.num_entries();
        // Apply renames in the moment and store the rest for later.
        let mut non_renames: Vec<Event> = Vec::new();
        let mut i: usize = 0;
        while i < n
            invariant
                self.wf(),
                other.wf(),
                n == other.inner.kseq().len(),
                0 <= i <= n,
                self@ == Self::spec_combine_renames(old(self)@, other.entries().take(i as int)),
                evs_view(non_renames@) =~= Self::events_of(other.entries().take(i as int)),
            decreases n - i,
        {
            proof {
                assert(other.entries().take(i + 1) =~= other.entries().take(i as int).push(
                    other.entries()[i as int],
                ));
                Self::lemma_combine_renames_snoc(
                    old(self)@,
                    other.entries().take(i as int),
                    other.entries()[i as int],
                );
                Self::lemma_events_of_snoc(
                    other.entries().take(i as int),
                    other.entries()[i as int],
                );
            }
            let new_path = other.inner.key_at(i);
            let entry = other.inner.val_at(i);
            if let Some(old_path) = &entry.oldest {
                self.push(Event::Rename(old_path.clone(), new_path.clone()));
            }
            if let Some(ev) = &entry.event {
                // The event is registered on the new path already.
                non_renames.push(ev.duplicate());
            }
            i = i + 1;
        }
        proof {
            assert(other.entries().take(n as int) =~= other.entries());
        }
        let m = non_renames.len();
        let mut j: usize = 0;
        while j < m
            invariant
                self.wf(),
                m == non_renames@.len(),
                0 <= j <= m,
                evs_view(non_renames@) =~= Self::events_of(other.entries()),
                self@ == spec_push_all(
                    Self::spec_combine_renames(old(self)@, other.entries()),
                    evs_view(non_renames@).take(j as int),
                ),
            decreases m - j,
        {
            proof {
                assert(evs_view(non_renames@).take(j + 1) =~= evs_view(non_renames@).take(
                    j as int,
                ).push(non_renames@[j as int]@));
                lemma_push_all_snoc(
                    Self::spec_combine_renames(old(self)@, other.entries()),
                    evs_view(non_renames@).take(j as int),
                    non_renames@[j as int]@,
                );
            }
            self.push(non_renames[j].duplicate());
            j = j + 1;
        }
        proof {
            assert(evs_view(non_renames@).take(m as int) =~= evs_view(non_renames@));
            Self::lemma_events_fold(
                Self::spec_combine_renames(old(self)@, other.entries()),
                other.entries(),
            );
        }
    }

    /// The sequence of stored events of a batch's entries, in entry order.
    pub open spec fn events_of(entries: Seq<(Seq<char>, DebouncedEntryV)>) -> Seq<EventV>
        decreases entries.len(),
    {
        if entries.len() == 0 {
            Seq::empty()
        } else {
            let rest = Self::events_of(entries.drop_first());
            match entries[0].1.event {
                Some(ev) => seq![ev] + rest,
                None => rest,
            }
        }
    }

    proof fn lemma_events_of_snoc(
        s: Seq<(Seq<char>, DebouncedEntryV)>,
        p: (Seq<char>, DebouncedEntryV),
    )
        ensures
            Self::events_of(s.push(p)) == ({
                match p.1.event {
                    Some(ev) => Self::events_of(s).push(ev),
                    None => Self::events_of(s),
                }
            }),
        decreases s.len(),
    {
        reveal_with_fuel(DebouncedEvents::events_of, 3);
        if s.len() == 0 {
            assert(s.push(p).drop_first() =~= Seq::<(Seq<char>, DebouncedEntryV)>::empty());
            assert(s.push(p)[0] == p);
            match p.1.event {
                Some(ev) => {
                    assert(seq![ev] + Seq::<EventV>::empty() =~= Self::events_of(s).push(ev));
                },
                None => {},
            }
        } else {
            assert(s.push(p)[0] == s[0]);
            assert(s.push(p).drop_first() =~= s.drop_first().push(p));
            Self::lemma_events_of_snoc(s.drop_first(), p);
            match s[0].1.event {
                Some(ev0) => {
                    match p.1.event {
                        Some(ev) => {
                            assert(seq![ev0] + Self::events_of(s.drop_first()).push(ev)
                                =~= (seq![ev0] + Self::events_of(s.drop_first())).push(ev));
                        },
                        None => {},
                    }
                },
                None => {},
            }
        }
    }

    /// Pushing the stored events of `entries` one by one equals the
    /// events-fold used by [`Self::spec_combine`].
    proof fn lemma_events_fold(
        m: Map<Seq<char>, DebouncedEntryV>,
        entries: Seq<(Seq<char>, DebouncedEntryV)>,
    )
        ensures
            spec_push_all(m, Self::events_of(entries)) == Self::spec_combine_events(m, entries),
        decreases entries.len(),
    {
        if entries.len() == 0 {
        } else {
            match entries[0].1.event {
                Some(ev) => {
                    assert((seq![ev] + Self::events_of(entries.drop_first()))[0] == ev);
                    assert((seq![ev] + Self::events_of(entries.drop_first())).drop_first()
                        =~= Self::events_of(entries.drop_first()));
                    Self::lemma_events_fold(spec_push(m, ev), entries.drop_first());
                },
                None => {
                    Self::lemma_events_fold(m, entries.drop_first());
                },
            }
        }
    }

    /// The number of recorded paths.
    pub fn len(&self) -> (r: usize)
        requires
            self.wf(),
        ensures
            r == self@.dom().len(),
    {
        self.inner.len()
    }

    /// Consumes this set of [`DebouncedEvents`], returning the entries of new
    /// paths, old paths, and an event, if one occurred there, in insertion
    /// order.
    pub fn into_iter(self) -> (r: Vec<(String, Option<String>, Option<Event>)>)
        requires
            self.wf(),
        ensures
            r@.len() == self.entries().len(),
            forall|i: int|
                0 <= i < r@.len() ==> {
                    &&& (#[trigger] r@[i]).0@ == self.entries()[i].0
                    &&& (match r@[i].1 {
                        Some(ref o) => Some(o@),
                        None => None,
                    }) == self.entries()[i].1.oldest
                    &&& opt_ev(r@[i].2) == self.entries()[i].1.event
                },
    {
        self.iter()
    }

    /// As [`Self::into_iter`], but without consuming the batch.
    pub fn iter(&self) -> (r: Vec<(String, Option<String>, Option<Event>)>)
        requires
            self.wf(),
        ensures
            r@.len() == self.entries().len(),
            forall|i: int|
                0 <= i < r@.len() ==> {
                    &&& (#[trigger] r@[i]).0@ == self.entries()[i].0
                    &&& (match r@[i].1 {
                        Some(ref o) => Some(o@),
                        None => None,
                    }) == self.entries()[i].1.oldest
                    &&& opt_ev(r@[i].2) == self.entries()[i].1.event
                },
    {
        let n = self.inner.num_entries();
        let mut r: Vec<(String, Option<String>, Option<Event>)> = Vec::new();
        let mut i: usize = 0;
        while i < n
            invariant
                self.wf(),
                n == self.inner.kseq().len(),
                0 <= i <= n,
                r@.len() == i,
                forall|j: int|
                    0 <= j < i ==> {
                        &&& (#[trigger] r@[j]).0@ == self.entries()[j].0
                        &&& (match r@[j].1 {
                            Some(ref o) => Some(o@),
                            None => None,
                        }) == self.entries()[j].1.oldest
                        &&& opt_ev(r@[j].2) == self.entries()[j].1.event
                    },
            decreases n - i,
        {
            let k = self.inner.key_at(i).clone();
            let e = self.inner.val_at(i).duplicate();
            r.push((k, e.oldest, e.event));
            i = i + 1;
        }
        r
    }
}

/// Collapsing three non-rename events on one path pairwise is associative:
/// folding the later two first gives the same single event as folding from
/// the front — except when a creation meets a deletion and the file is then
/// recreated or modified, since a create-then-delete is deliberately
/// recorded as a deletion. That pair is excluded here.
pub proof fn lemma_debounce_two_assoc(x: EventV, y: EventV, z: EventV, p: Seq<char>)
    requires
        !x.is_rename(),
        !y.is_rename(),
        !z.is_rename(),
        !(x is Create && y is Delete) || z is Delete,
    ensures
        spec_debounce_two(Some(spec_debounce_two(Some(x), y, p)), z, p) == spec_debounce_two(
            Some(x),
            spec_debounce_two(Some(y), z, p),
            p,
        ),
{
}

/// A creation, a rename from `a` to `b`, and a deletion of `b` debounce to a
/// single deletion entry keyed by `b` that remembers `a` as the oldest path.
pub proof fn lemma_create_rename_delete(a: Seq<char>, b: Seq<char>)
    ensures
        ({
            let m = spec_push_all(
                Map::<Seq<char>, DebouncedEntryV>::empty(),
                seq![EventV::Create(a), EventV::Rename(a, b), EventV::Delete(b)],
            );
            &&& m.dom() =~= Set::<Seq<char>>::empty().insert(b)
            &&& m[b].oldest == Some(a)
            &&& m[b].event == Some(EventV::Delete(b))
        }),
{
    reveal_with_fuel(spec_push_all, 5);
    let evs = seq![EventV::Create(a), EventV::Rename(a, b), EventV::Delete(b)];
    let m0 = Map::<Seq<char>, DebouncedEntryV>::empty();
    let m1 = spec_push(m0, EventV::Create(a));
    let m2 = spec_push(m1, EventV::Rename(a, b));
    let m3 = spec_push(m2, EventV::Delete(b));
    assert(evs.drop_first() =~= seq![EventV::Rename(a, b), EventV::Delete(b)]);
    assert(evs.drop_first().drop_first() =~= seq![EventV::Delete(b)]);
    assert(evs.drop_first().drop_first().drop_first() =~= Seq::<EventV>::empty());
    assert(spec_push_all(m0, evs) == m3);
    assert(m1 == m0.insert(a, DebouncedEntryV { oldest: None, event: Some(EventV::Create(a)) }));
    assert(m2.dom().contains(b) && m2[b].oldest == Some(a) && m2[b].event == Some(
        EventV::Create(b),
    ));
    assert(m3[b].event == Some(EventV::Delete(b)));
    assert(m3.dom() =~= Set::<Seq<char>>::empty().insert(b));
}

} // verus!
