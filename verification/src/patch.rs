//! Patches: a debounced batch resolved into per-path work.
//!
//! The planning here is pure: it splits a batch into renames, deletions, and
//! the tracked paths whose contents must be read and parsed. The reading and
//! parsing themselves happen outside; their results come back as
//! [`PathPatch`] values inside a [`GraphPatch`].

use crate::debouncer::{DebouncedEvents, Event, EventV};
use crate::document::StarlingDocument;
use crate::error::PathParseError;
use vstd::prelude::*;

verus! {

/// Whether the path has one of the tracked extensions: `.md`, `.markdown`,
/// or `.org`.
pub open spec fn spec_is_tracked(s: Seq<char>) -> bool {
    ||| (s.len() >= 3 && s.subrange(s.len() - 3, s.len() as int) == seq!['.', 'm', 'd'])
    ||| (s.len() >= 9 && s.subrange(s.len() - 9, s.len() as int) == seq![
        '.',
        'm',
        'a',
        'r',
        'k',
        'd',
        'o',
        'w',
        'n',
    ])
    ||| crate::path_node::spec_is_org(s)
}

/// Whether the path is one the graph tracks, by extension.
pub fn is_tracked(path: &String) -> (r: bool)
    ensures
        r == spec_is_tracked(path@),
{
    let cs = crate::chars::string_to_chars(path.as_str());
    let n = cs.len();
    let md = n >= 3 && cs[n - 3] == '.' && cs[n - 2] == 'm' && cs[n - 1] == 'd';
    let org = n >= 4 && cs[n - 4] == '.' && cs[n - 3] == 'o' && cs[n - 2] == 'r' && cs[n - 1]
        == 'g';
    let markdown = n >= 9 && cs[n - 9] == '.' && cs[n - 8] == 'm' && cs[n - 7] == 'a' && cs[n - 6]
        == 'r' && cs[n - 5] == 'k' && cs[n - 4] == 'd' && cs[n - 3] == 'o' && cs[n - 2] == 'w'
        && cs[n - 1] == 'n';
    proof {
        if md {
            assert(path@.subrange(path@.len() - 3, path@.len() as int) =~= seq!['.', 'm', 'd']);
        }
        if org {
            assert(path@.subrange(path@.len() - 4, path@.len() as int) =~= seq![
                '.',
                'o',
                'r',
                'g',
            ]);
        }
        if markdown {
            assert(path@.subrange(path@.len() - 9, path@.len() as int) =~= seq![
                '.',
                'm',
                'a',
                'r',
                'k',
                'd',
                'o',
                'w',
                'n',
            ]);
        }
        if !md && spec_is_tracked(path@) && !crate::path_node::spec_is_org(path@) && !markdown {
            let s3 = path@.subrange(path@.len() - 3, path@.len() as int);
            assert(cs@[n - 3] == s3[0] && cs@[n - 2] == s3[1] && cs@[n - 1] == s3[2]);
        }
        if !org && crate::path_node::spec_is_org(path@) {
            let s4 = path@.subrange(path@.len() - 4, path@.len() as int);
            assert(cs@[n - 4] == s4[0] && cs@[n - 3] == s4[1] && cs@[n - 2] == s4[2] && cs@[n - 1]
                == s4[3]);
        }
        if !markdown && path@.len() >= 9 && path@.subrange(path@.len() - 9, path@.len() as int)
            == seq!['.', 'm', 'a', 'r', 'k', 'd', 'o', 'w', 'n'] {
            let s9 = path@.subrange(path@.len() - 9, path@.len() as int);
            assert(cs@[n - 9] == s9[0] && cs@[n - 8] == s9[1] && cs@[n - 7] == s9[2] && cs@[n - 6]
                == s9[3] && cs@[n - 5] == s9[4] && cs@[n - 4] == s9[5] && cs@[n - 3] == s9[6]
                && cs@[n - 2] == s9[7] && cs@[n - 1] == s9[8]);
        }
    }
    md || org || markdown
}

/// Some entry of the batch records a rename from `old_p` to `new_p`.
pub open spec fn rename_witnessed(
    events: DebouncedEvents,
    old_p: Seq<char>,
    new_p: Seq<char>,
) -> bool {
    exists|j: int|
        0 <= j < events.entries().len() && (#[trigger] events.entries()[j]).1.oldest == Some(
            old_p,
        ) && events.entries()[j].0 == new_p
}

/// The list records a rename from `old_p` to `new_p`.
pub open spec fn rename_recorded(
    rs: Seq<(String, String)>,
    old_p: Seq<char>,
    new_p: Seq<char>,
) -> bool {
    exists|a: int| 0 <= a < rs.len() && (#[trigger] rs[a]).0@ == old_p && rs[a].1@ == new_p
}

/// The list records the path.
pub open spec fn path_recorded(ps: Seq<String>, p: Seq<char>) -> bool {
    exists|a: int| 0 <= a < ps.len() && (#[trigger] ps[a])@ == p
}

/// The pure plan of a batch: which renames to apply, which tracked paths to
/// delete, and which tracked paths must be read (and parsed) as creations or
/// modifications.
pub struct PatchPlan {
    pub renames: Vec<(String, String)>,
    pub deletions: Vec<String>,
    pub creations: Vec<String>,
    pub modifications: Vec<String>,
}

impl PatchPlan {
    /// Splits a debounced batch into a plan, in the batch's entry order.
    /// Renames are kept for every entry with an old path; the other lists
    /// keep only tracked paths.
    #[verifier::loop_isolation(false)]
    pub fn from_events(events: DebouncedEvents) -> (r: PatchPlan)
        requires
            events.wf(),
        ensures
            forall|i: int|
                0 <= i < r.renames@.len() ==> rename_witnessed(
                    events,
                    (#[trigger] r.renames@[i]).0@,
                    r.renames@[i].1@,
                ),
            forall|i: int|
                0 <= i < r.deletions@.len() ==> spec_is_tracked((#[trigger] r.deletions@[i])@)
                    && events@.dom().contains(r.deletions@[i]@) && events@[r.deletions@[i]@].event
                    == Some(EventV::Delete(r.deletions@[i]@)),
            forall|i: int|
                0 <= i < r.creations@.len() ==> spec_is_tracked((#[trigger] r.creations@[i])@)
                    && events@.dom().contains(r.creations@[i]@) && events@[r.creations@[i]@].event
                    == Some(EventV::Create(r.creations@[i]@)),
            forall|i: int|
                0 <= i < r.modifications@.len() ==> spec_is_tracked(
                    (#[trigger] r.modifications@[i])@,
                ) && events@.dom().contains(r.modifications@[i]@) && events@[
                    r.modifications@[i]@
                ].event == Some(EventV::Modify(r.modifications@[i]@)),
            forall|j: int|
                0 <= j < events.entries().len() && (#[trigger] events.entries()[j]).1.oldest
                    is Some ==> rename_recorded(
                    r.renames@,
                    events.entries()[j].1.oldest.unwrap(),
                    events.entries()[j].0,
                ),
            forall|j: int|
                0 <= j < events.entries().len() && spec_is_tracked(
                    (#[trigger] events.entries()[j]).0,
                ) && events.entries()[j].1.event == Some(
                    EventV::Delete(events.entries()[j].0),
                ) ==> path_recorded(r.deletions@, events.entries()[j].0),
            forall|j: int|
                0 <= j < events.entries().len() && spec_is_tracked(
                    (#[trigger] events.entries()[j]).0,
                ) && events.entries()[j].1.event == Some(
                    EventV::Create(events.entries()[j].0),
                ) ==> path_recorded(r.creations@, events.entries()[j].0),
            forall|j: int|
                0 <= j < events.entries().len() && spec_is_tracked(
                    (#[trigger] events.entries()[j]).0,
                ) && events.entries()[j].1.event == Some(
                    EventV::Modify(events.entries()[j].0),
                ) ==> path_recorded(r.modifications@, events.entries()[j].0),
    {
        proof {
            events.lemma_entries();
        }
        let entries = events.iter();
        let n = entries.len();
        let mut renames: Vec<(String, String)> = Vec::new();
        let mut deletions: Vec<String> = Vec::new();
        let mut creations: Vec<String> = Vec::new();
        let mut modifications: Vec<String> = Vec::new();
        let mut i: usize = 0;
        while i < n
            invariant
                events.wf(),
                n == entries@.len(),
                entries@.len() == events.entries().len(),
                forall|j: int|
                    0 <= j < n ==> {
                        &&& (#[trigger] entries@[j]).0@ == events.entries()[j].0
                        &&& (match entries@[j].1 {
                            Some(ref o) => Some(o@),
                            None => None,
                        }) == events.entries()[j].1.oldest
                        &&& crate::debouncer::opt_ev(entries@[j].2) == events.entries()[j].1.event
                    },
                0 <= i <= n,
                forall|a: int|
                    0 <= a < renames@.len() ==> rename_witnessed(
                        events,
                        (#[trigger] renames@[a]).0@,
                        renames@[a].1@,
                    ),
                forall|a: int|
                    0 <= a < deletions@.len() ==> spec_is_tracked((#[trigger] deletions@[a])@)
                        && events@.dom().contains(deletions@[a]@) && events@[
                        deletions@[a]@
                    ].event == Some(EventV::Delete(deletions@[a]@)),
                forall|a: int|
                    0 <= a < creations@.len() ==> spec_is_tracked((#[trigger] creations@[a])@)
                        && events@.dom().contains(creations@[a]@) && events@[
                        creations@[a]@
                    ].event == Some(EventV::Create(creations@[a]@)),
                forall|a: int|
                    0 <= a < modifications@.len() ==> spec_is_tracked(
                        (#[trigger] modifications@[a])@,
                    ) && events@.dom().contains(modifications@[a]@) && events@[
                        modifications@[a]@
                    ].event == Some(EventV::Modify(modifications@[a]@)),
                forall|j: int|
                    0 <= j < i && (#[trigger] events.entries()[j]).1.oldest is Some
                        ==> rename_recorded(
                        renames@,
                        events.entries()[j].1.oldest.unwrap(),
                        events.entries()[j].0,
                    ),
                forall|j: int|
                    0 <= j < i && spec_is_tracked((#[trigger] events.entries()[j]).0)
                        && events.entries()[j].1.event == Some(
                        EventV::Delete(events.entries()[j].0),
                    ) ==> path_recorded(deletions@, events.entries()[j].0),
                forall|j: int|
                    0 <= j < i && spec_is_tracked((#[trigger] events.entries()[j]).0)
                        && events.entries()[j].1.event == Some(
                        EventV::Create(events.entries()[j].0),
                    ) ==> path_recorded(creations@, events.entries()[j].0),
                forall|j: int|
                    0 <= j < i && spec_is_tracked((#[trigger] events.entries()[j]).0)
                        && events.entries()[j].1.event == Some(
                        EventV::Modify(events.entries()[j].0),
                    ) ==> path_recorded(modifications@, events.entries()[j].0),
            decreases n - i,
        {
            let entry = &entries[i];
            let ghost ev = events.entries()[i as int];
            let ghost rn0 = renames@;
            let ghost dl0 = deletions@;
            let ghost cr0 = creations@;
            let ghost md0 = modifications@;
            proof {
                assert(events@.dom().contains(ev.0) && events@[ev.0] == ev.1);
            }
            if let Some(old_path) = &entry.1 {
                renames.push((old_path.clone(), entry.0.clone()));
                proof {
                    assert(0 <= i < events.entries().len() && (#[trigger] events.entries()[
                        i as int
                    ]).1.oldest == Some(renames@[renames@.len() - 1].0@) && events.entries()[
                        i as int
                    ].0 == renames@[renames@.len() - 1].1@);
                }
            }
            if let Some(event) = &entry.2 {
                if is_tracked(&entry.0) {
                    match event {
                        Event::Delete(_) => {
                            deletions.push(entry.0.clone());
                            proof {
                                assert((#[trigger] deletions@[deletions@.len() - 1])@ == ev.0);
                            }
                        },
                        Event::Create(_) => {
                            creations.push(entry.0.clone());
                            proof {
                                assert((#[trigger] creations@[creations@.len() - 1])@ == ev.0);
                            }
                        },
                        Event::Modify(_) => {
                            modifications.push(entry.0.clone());
                            proof {
                                assert((#[trigger] modifications@[modifications@.len() - 1])@
                                    == ev.0);
                            }
                        },
                        Event::Rename(_, _) => {
                            // A batch never stores a rename event.
                        },
                    }
                }
            }
            proof {
                assert forall|j: int|
                    0 <= j < i + 1 && (#[trigger] events.entries()[j]).1.oldest
                        is Some implies rename_recorded(
                    renames@,
                    events.entries()[j].1.oldest.unwrap(),
                    events.entries()[j].0,
                ) by {
                    if j < i {
                        let a = choose|a: int|
                            0 <= a < rn0.len() && (#[trigger] rn0[a]).0@ == events.entries()[
                                j
                            ].1.oldest.unwrap() && rn0[a].1@ == events.entries()[j].0;
                        assert((#[trigger] renames@[a]).0@ == events.entries()[
                            j
                        ].1.oldest.unwrap() && renames@[a].1@ == events.entries()[j].0);
                    } else {
                        assert((#[trigger] renames@[renames@.len() - 1]).0@ == events.entries()[
                            j
                        ].1.oldest.unwrap() && renames@[renames@.len() - 1].1@
                            == events.entries()[j].0);
                    }
                }
                assert forall|j: int|
                    0 <= j < i + 1 && spec_is_tracked((#[trigger] events.entries()[j]).0)
                        && events.entries()[j].1.event == Some(
                        EventV::Delete(events.entries()[j].0),
                    ) implies path_recorded(deletions@, events.entries()[j].0) by {
                    if j < i {
                        let a = choose|a: int|
                            0 <= a < dl0.len() && (#[trigger] dl0[a])@ == events.entries()[j].0;
                        assert((#[trigger] deletions@[a])@ == events.entries()[j].0);
                    } else {
                        assert((#[trigger] deletions@[deletions@.len() - 1])@
                            == events.entries()[j].0);
                    }
                }
                assert forall|j: int|
                    0 <= j < i + 1 && spec_is_tracked((#[trigger] events.entries()[j]).0)
                        && events.entries()[j].1.event == Some(
                        EventV::Create(events.entries()[j].0),
                    ) implies path_recorded(creations@, events.entries()[j].0) by {
                    if j < i {
                        let a = choose|a: int|
                            0 <= a < cr0.len() && (#[trigger] cr0[a])@ == events.entries()[j].0;
                        assert((#[trigger] creations@[a])@ == events.entries()[j].0);
                    } else {
                        assert((#[trigger] creations@[creations@.len() - 1])@
                            == events.entries()[j].0);
                    }
                }
                assert forall|j: int|
                    0 <= j < i + 1 && spec_is_tracked((#[trigger] events.entries()[j]).0)
                        && events.entries()[j].1.event == Some(
                        EventV::Modify(events.entries()[j].0),
                    ) implies path_recorded(modifications@, events.entries()[j].0) by {
                    if j < i {
                        let a = choose|a: int|
                            0 <= a < md0.len() && (#[trigger] md0[a])@ == events.entries()[j].0;
                        assert((#[trigger] modifications@[a])@ == events.entries()[j].0);
                    } else {
                        assert((#[trigger] modifications@[modifications@.len() - 1])@
                            == events.entries()[j].0);
                    }
                }
            }
            i = i + 1;
        }
        PatchPlan { renames, deletions, creations, modifications }
    }
}

/// The resolved contents of a single path: the parse of what was read, or
/// the error that reading or parsing produced.
pub struct PathPatch {
    /// The path the patch is for.
    pub path: String,
    /// The result of reading and parsing the contents of that path.
    pub contents_res: Result<StarlingDocument, PathParseError>,
}

/// A batch of filesystem changes with all reading and parsing already
/// resolved, ready to apply to a graph.
pub struct GraphPatch {
    /// Paths renamed from the first element to the second; these must be
    /// processed first.
    pub renames: Vec<(String, String)>,
    /// Paths which have been deleted.
    pub deletions: Vec<String>,
    /// Paths which have been created, with their contents.
    pub creations: Vec<PathPatch>,
    /// Paths which have been modified, with their new contents.
    pub modifications: Vec<PathPatch>,
}

} // verus!
