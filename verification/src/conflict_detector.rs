//! Arbitration between corrective writes the engine produces and writes from
//! out-of-band sources, against concurrent filesystem events.
//!
//! The detector keeps a table of patches: for each patch still being
//! processed, the debounced events that have occurred since it started, and
//! the paths that out-of-band writes have gone to meanwhile. When a consumer
//! finishes an update it submits its writes; each write is moved along the
//! rename chain of the events since its patch, dropped if its file was
//! deleted or superseded, or marked with the conflict it runs into.

use crate::debouncer::{DebouncedEntryV, DebouncedEvents, EventV};
use crate::keymap::{KeyMap, KeySet, Stored};
use vstd::prelude::*;

verus! {

/// A write to the filesystem.
#[derive(PartialEq, Eq, Debug, Clone)]
pub struct Write {
    /// The path we want to write to.
    pub path: String,
    /// The contents we want to write to it.
    pub contents: String,
    /// Where this write came from (determines precedence).
    pub source: WriteSource,
    /// The type of conflict on this write, if any.
    pub conflict: Conflict,
}

#[derive(PartialEq, Eq, Debug, Clone, Copy)]
pub enum WriteSource {
    /// This write came after processing a patch from the filesystem. These
    /// writes are entirely secondary (link titles, stabilised ids); if they
    /// conflict with an out-of-band write, the out-of-band write wins.
    Filesystem,
    /// This write came from some other source outside the filesystem. An
    /// event *from* the filesystem takes precedence over it, but it takes
    /// precedence over a corrective write *to* the filesystem.
    Other,
}

/// Types of conflicts that can occur on a write.
#[derive(PartialEq, Eq, Debug, Clone)]
pub enum Conflict {
    /// No conflict.
    NoConflict,
    /// This path has been modified on the filesystem as well; what is on disk
    /// should be compared with what we have.
    Simple,
    /// This path was renamed to multiple other paths, and we don't know where
    /// to go. This is an irresolvable conflict.
    Multi(KeySet<String>),
}

/// The mathematical value of a [`Write`].
#[verifier::ext_equal]
pub struct WriteV {
    pub path: Seq<char>,
    pub contents: Seq<char>,
    pub source: WriteSource,
    pub conflict: ConflictV,
}

#[verifier::ext_equal]
pub enum ConflictV {
    NoConflict,
    Simple,
    Multi(Set<Seq<char>>),
}

impl View for Conflict {
    type V = ConflictV;

    open spec fn view(&self) -> ConflictV {
        match self {
            Conflict::NoConflict => ConflictV::NoConflict,
            Conflict::Simple => ConflictV::Simple,
            Conflict::Multi(s) => ConflictV::Multi(s@),
        }
    }
}

impl View for Write {
    type V = WriteV;

    open spec fn view(&self) -> WriteV {
        WriteV {
            path: self.path@,
            contents: self.contents@,
            source: self.source,
            conflict: self.conflict@,
        }
    }
}

impl Write {
    pub open spec fn inv(&self) -> bool {
        match self.conflict {
            Conflict::Multi(ref s) => s.wf(),
            _ => true,
        }
    }

    pub fn duplicate(&self) -> (r: Self)
        requires
            self.inv(),
        ensures
            r@ == self@,
            r.inv(),
    {
        let conflict = match &self.conflict {
            Conflict::NoConflict => Conflict::NoConflict,
            Conflict::Simple => Conflict::Simple,
            Conflict::Multi(s) => Conflict::Multi(s.duplicate()),
        };
        Write {
            path: self.path.clone(),
            contents: self.contents.clone(),
            source: self.source,
            conflict,
        }
    }
}

/// The views of a sequence of writes.
pub open spec fn writes_view(s: Seq<Write>) -> Seq<WriteV> {
    s.map_values(|w: Write| w@)
}

/// The possibilities for a single path to be renamed. Its view is the set of
/// paths it was renamed to.
pub enum PathRename {
    /// The path has not been renamed.
    NoRename,
    /// The path has been renamed a single time: writes shift straight to the
    /// new path.
    One(String),
    /// The path has been renamed, recreated, and renamed again to something
    /// *different*: an irresolvable conflict.
    Many(KeySet<String>),
}

impl View for PathRename {
    type V = Set<Seq<char>>;

    open spec fn view(&self) -> Set<Seq<char>> {
        match self {
            PathRename::NoRename => Set::empty(),
            PathRename::One(p) => Set::empty().insert(p@),
            PathRename::Many(s) => s@,
        }
    }
}

impl PathRename {
    /// The variant is faithful to the number of recorded targets.
    pub open spec fn inv(&self) -> bool {
        match self {
            PathRename::NoRename => true,
            PathRename::One(_) => true,
            PathRename::Many(s) => s.wf() && s@.len() >= 2 && s@.finite(),
        }
    }

    /// Adds the given rename target to this [`PathRename`].
    pub fn add(&mut self, path: String)
        requires
            old(self).inv(),
        ensures
            final(self).inv(),
            final(self)@ == old(self)@.insert(path@),
    {
        let mut prev = PathRename::NoRename;
        core::mem::swap(self, &mut prev);
        match prev {
            PathRename::NoRename => {
                *self = PathRename::One(path);
                proof {
                    assert(self@ =~= Set::<Seq<char>>::empty().insert(path@));
                }
            },
            PathRename::One(curr) => {
                if curr.eq(&path) {
                    proof {
                        assert(Set::<Seq<char>>::empty().insert(curr@) =~= Set::<
                            Seq<char>,
                        >::empty().insert(curr@).insert(path@));
                    }
                    *self = PathRename::One(curr);
                } else {
                    let mut s = KeySet::new();
                    s.insert(curr);
                    s.insert(path);
                    *self = PathRename::Many(s);
                }
            },
            PathRename::Many(mut paths) => {
                paths.insert(path);
                *self = PathRename::Many(paths);
                proof {
                    vstd::set::axiom_set_insert_len(old(self)@, path@);
                }
            },
        }
    }
}

/// One row of the table a patch's writes are resolved against: the set of
/// paths this path was renamed to, and the event recorded on this path.
pub struct ConflictEntry {
    pub rename: PathRename,
    pub event: Option<crate::debouncer::Event>,
}

#[verifier::ext_equal]
pub struct ConflictEntryV {
    pub targets: Set<Seq<char>>,
    pub event: Option<EventV>,
}

impl View for ConflictEntry {
    type V = ConflictEntryV;

    open spec fn view(&self) -> ConflictEntryV {
        ConflictEntryV {
            targets: self.rename@,
            event: crate::debouncer::opt_ev(self.event),
        }
    }
}

impl Stored for ConflictEntry {
    open spec fn inv(&self) -> bool {
        self.rename.inv()
    }

    fn duplicate(&self) -> (r: Self)
        ensures
            r@ == self@,
            r.inv(),
    {
        let rename = match &self.rename {
            PathRename::NoRename => PathRename::NoRename,
            PathRename::One(p) => PathRename::One(p.clone()),
            PathRename::Many(s) => PathRename::Many(s.duplicate()),
        };
        let event = match &self.event {
            Some(e) => Some(e.duplicate()),
            None => None,
        };
        ConflictEntry { rename, event }
    }
}

/// The paths a given path was renamed to, read off a debounced batch: the
/// keys whose entry records this path as its oldest path.
pub open spec fn rename_targets(m: Map<Seq<char>, DebouncedEntryV>, q: Seq<char>) -> Set<
    Seq<char>,
> {
    Set::new(|k: Seq<char>| m.dom().contains(k) && m[k].oldest == Some(q))
}

/// The conflict table of a debounced batch, indexed by *old* paths: for each
/// path, where renames moved it and what event was recorded on it.
pub open spec fn spec_conflict_table(m: Map<Seq<char>, DebouncedEntryV>) -> Map<
    Seq<char>,
    ConflictEntryV,
> {
    Map::new(
        |q: Seq<char>|
            rename_targets(m, q).len() > 0 || (m.dom().contains(q) && m[q].event is Some),
        |q: Seq<char>|
            ConflictEntryV {
                targets: rename_targets(m, q),
                event: if m.dom().contains(q) {
                    m[q].event
                } else {
                    None
                },
            },
    )
}

/// What becomes of one write resolved against a conflict table.
pub enum ResolvedV {
    /// The write goes ahead, to the given (possibly renamed) path.
    Keep(Seq<char>),
    /// The write is dropped.
    Discard,
    /// The write collides with a concurrent on-disk change of the given path.
    Simple(Seq<char>),
    /// The write's path was renamed to several places.
    Multi(Seq<char>, Set<Seq<char>>),
}

/// Follows the rename chain of `path` through the table, then inspects the
/// terminal event. `fuel` bounds the number of redirects taken; the caller
/// passes more fuel than the table has rows, so fuel can run out only on a
/// cyclic rename chain, which leaves the write where it last pointed.
pub open spec fn spec_resolve(
    t: Map<Seq<char>, ConflictEntryV>,
    path: Seq<char>,
    from_fs: bool,
    fuel: nat,
) -> ResolvedV
    decreases fuel,
{
    if !t.dom().contains(path) {
        ResolvedV::Keep(path)
    } else {
        let e = t[path];
        if e.targets.len() == 1 {
            if fuel == 0 {
                ResolvedV::Keep(path)
            } else {
                spec_resolve(t, e.targets.choose(), from_fs, (fuel - 1) as nat)
            }
        } else if e.targets.len() >= 2 {
            ResolvedV::Multi(path, e.targets)
        } else {
            match e.event {
                Some(EventV::Create(_)) | Some(EventV::Modify(_)) => if from_fs {
                    ResolvedV::Discard
                } else {
                    ResolvedV::Simple(path)
                },
                Some(EventV::Delete(_)) => ResolvedV::Discard,
                // A rename event never sits in a debounced entry.
                Some(EventV::Rename(_, _)) => ResolvedV::Keep(path),
                None => ResolvedV::Keep(path),
            }
        }
    }
}

/// The write that survives resolution, if any.
pub open spec fn spec_apply_resolution(w: WriteV, r: ResolvedV) -> Option<WriteV> {
    match r {
        ResolvedV::Keep(p) => Some(
            WriteV { path: p, contents: w.contents, source: w.source, conflict: w.conflict },
        ),
        ResolvedV::Discard => None,
        ResolvedV::Simple(p) => Some(
            WriteV {
                path: p,
                contents: w.contents,
                source: w.source,
                conflict: ConflictV::Simple,
            },
        ),
        ResolvedV::Multi(p, s) => Some(
            WriteV {
                path: p,
                contents: w.contents,
                source: w.source,
                conflict: ConflictV::Multi(s),
            },
        ),
    }
}

/// A single entry in a [`ConflictDetector`]'s patch table.
pub struct PatchTableEntry {
    /// The number of consumers that depend on this patch; the entry is
    /// discarded when this falls to zero. For the theoretical next patch this
    /// stays zero until the patch becomes real.
    pub ref_count: u32,
    /// All events since this patch, debounced into one batch.
    pub events_since: DebouncedEvents,
    /// Paths written by out-of-band updates while this patch was in the
    /// table; corrective filesystem writes to these paths are dropped.
    pub other_writes: KeySet<String>,
}

#[verifier::ext_equal]
pub struct PatchTableEntryV {
    pub ref_count: u32,
    pub events_since: Map<Seq<char>, DebouncedEntryV>,
    pub other_writes: Set<Seq<char>>,
}

impl View for PatchTableEntry {
    type V = PatchTableEntryV;

    open spec fn view(&self) -> PatchTableEntryV {
        PatchTableEntryV {
            ref_count: self.ref_count,
            events_since: self.events_since@,
            other_writes: self.other_writes@,
        }
    }
}

impl Stored for PatchTableEntry {
    open spec fn inv(&self) -> bool {
        self.events_since.wf() && self.other_writes.wf()
    }

    fn duplicate(&self) -> (r: Self)
        ensures
            r@ == self@,
            r.inv(),
    {
        PatchTableEntry {
            ref_count: self.ref_count,
            events_since: self.events_since.duplicate(),
            other_writes: self.other_writes.duplicate(),
        }
    }
}

/// The empty patch-table entry with the given reference count.
pub open spec fn spec_empty_entry(ref_count: u32) -> PatchTableEntryV {
    PatchTableEntryV {
        ref_count,
        events_since: Map::empty(),
        other_writes: Set::empty(),
    }
}

/// One write passing the out-of-band filter: a surviving out-of-band write
/// records its path on every live patch; a surviving filesystem write is
/// dropped if an out-of-band write already went to its path.
pub open spec fn spec_ow_step(
    tbl: Map<u32, PatchTableEntryV>,
    idx: u32,
    w: WriteV,
) -> (Option<WriteV>, Map<u32, PatchTableEntryV>) {
    match w.source {
        WriteSource::Other => (
            Some(w),
            Map::new(
                |k: u32| tbl.dom().contains(k),
                |k: u32|
                    PatchTableEntryV {
                        ref_count: tbl[k].ref_count,
                        events_since: tbl[k].events_since,
                        other_writes: tbl[k].other_writes.insert(w.path),
                    },
            ),
        ),
        WriteSource::Filesystem => if tbl[idx].other_writes.contains(w.path) {
            (None, tbl)
        } else {
            (Some(w), tbl)
        },
    }
}

/// Resolution and filtering of a whole sequence of writes, in order,
/// threading the patch table's per-patch records of out-of-band writes.
pub open spec fn spec_detect_writes(
    t: Map<Seq<char>, ConflictEntryV>,
    tbl: Map<u32, PatchTableEntryV>,
    idx: u32,
    ws: Seq<WriteV>,
    fuel: nat,
) -> (Seq<WriteV>, Map<u32, PatchTableEntryV>)
    decreases ws.len(),
{
    if ws.len() == 0 {
        (Seq::empty(), tbl)
    } else {
        let w = ws[0];
        let resolved = spec_resolve(t, w.path, w.source is Filesystem, fuel);
        match spec_apply_resolution(w, resolved) {
            None => spec_detect_writes(t, tbl, idx, ws.drop_first(), fuel),
            Some(w1) => {
                let (kept, tbl1) = spec_ow_step(tbl, idx, w1);
                let (rest, tbl2) = spec_detect_writes(t, tbl1, idx, ws.drop_first(), fuel);
                match kept {
                    Some(x) => (seq![x] + rest, tbl2),
                    None => (rest, tbl2),
                }
            },
        }
    }
}

/// The filtering of writes never changes which patches are live, their
/// reference counts, or their recorded events; it only grows the records of
/// out-of-band writes.
pub proof fn lemma_detect_writes_preserves(
    t: Map<Seq<char>, ConflictEntryV>,
    tbl: Map<u32, PatchTableEntryV>,
    idx: u32,
    ws: Seq<WriteV>,
    fuel: nat,
)
    ensures
        ({
            let (_, tbl2) = spec_detect_writes(t, tbl, idx, ws, fuel);
            &&& tbl2.dom() =~= tbl.dom()
            &&& forall|k: u32|
                tbl.dom().contains(k) ==> (#[trigger] tbl2[k]).ref_count == tbl[k].ref_count
                    && tbl2[k].events_since == tbl[k].events_since
        }),
    decreases ws.len(),
{
    if ws.len() == 0 {
    } else {
        let w = ws[0];
        let resolved = spec_resolve(t, w.path, w.source is Filesystem, fuel);
        match spec_apply_resolution(w, resolved) {
            None => {
                lemma_detect_writes_preserves(t, tbl, idx, ws.drop_first(), fuel);
            },
            Some(w1) => {
                let (_, tbl1) = spec_ow_step(tbl, idx, w1);
                lemma_detect_writes_preserves(t, tbl1, idx, ws.drop_first(), fuel);
            },
        }
    }
}

/// The unique element of a singleton set is what `choose` picks.
proof fn lemma_singleton_choose(s: Set<Seq<char>>, x: Seq<char>)
    requires
        s.finite(),
        s.len() == 1,
        s.contains(x),
    ensures
        s.choose() == x,
{
    Set::<Seq<char>>::lemma_is_singleton(s);
}

/// The keys of the first `i` entries of a batch.
spec fn prefix_keys(ents: Seq<(Seq<char>, DebouncedEntryV)>, i: int) -> Set<Seq<char>> {
    Set::new(|q: Seq<char>| exists|j: int| 0 <= j < i && (#[trigger] ents[j]).0 == q)
}

/// `tv` is the conflict table of the batch `m`.
spec fn table_matches(
    m: Map<Seq<char>, DebouncedEntryV>,
    tv: Map<Seq<char>, ConflictEntryV>,
) -> bool {
    &&& forall|q: Seq<char>|
        #[trigger] tv.dom().contains(q) <==> (rename_targets(m, q).len() > 0 || (
        m.dom().contains(q) && m[q].event is Some))
    &&& forall|q: Seq<char>|
        #[trigger] tv.dom().contains(q) ==> tv[q].targets == rename_targets(m, q) && tv[q].event
            == (if m.dom().contains(q) {
            m[q].event
        } else {
            None
        })
}

proof fn lemma_table_matches_unique(
    m: Map<Seq<char>, DebouncedEntryV>,
    tv: Map<Seq<char>, ConflictEntryV>,
)
    requires
        table_matches(m, tv),
    ensures
        tv == spec_conflict_table(m),
{
    assert(tv =~~= spec_conflict_table(m));
}

/// Finiteness of the rename-target sets of a finite batch.
proof fn lemma_rt_finite(m: Map<Seq<char>, DebouncedEntryV>, q: Seq<char>)
    requires
        m.dom().finite(),
    ensures
        rename_targets(m, q).finite(),
        rename_targets(m, q).len() > 0 <==> rename_targets(m, q) != Set::<Seq<char>>::empty(),
{
    vstd::set_lib::lemma_len_subset(rename_targets(m, q), m.dom());
    if rename_targets(m, q).len() == 0 {
        rename_targets(m, q).lemma_len0_is_empty();
    }
    if rename_targets(m, q) == Set::<Seq<char>>::empty() {
        assert(rename_targets(m, q).len() == 0);
    }
}

/// Builds the conflict table of a debounced batch, indexed by old paths.
#[verifier::loop_isolation(false)]
fn build_conflict_table(batch: &DebouncedEvents) -> (t: KeyMap<String, ConflictEntry>)
    requires
        batch.wf(),
    ensures
        t.wf(),
        t@ == spec_conflict_table(batch@),
{
    proof {
        batch.lemma_entries();
    }
    let entries = batch.iter();
    let ghost bents = batch.entries();
    let ghost m_full = batch@;
    let mut t: KeyMap<String, ConflictEntry> = KeyMap::new();
    let n = entries.len();
    proof {
        assert(m_full.restrict(prefix_keys(bents, 0)) =~= Map::<
            Seq<char>,
            DebouncedEntryV,
        >::empty());
        assert forall|q: Seq<char>|
            rename_targets(m_full.restrict(prefix_keys(bents, 0)), q) == Set::<
                Seq<char>,
            >::empty() by {
            assert(rename_targets(m_full.restrict(prefix_keys(bents, 0)), q) =~= Set::<
                Seq<char>,
            >::empty());
        }
        assert(table_matches(m_full.restrict(prefix_keys(bents, 0)), t@));
    }
    let mut i: usize = 0;
    while i < n
        invariant
            t.wf(),
            0 <= i <= n,
            table_matches(m_full.restrict(prefix_keys(bents, i as int)), t@),
        decreases n - i,
    {
        let ghost mi = m_full.restrict(prefix_keys(bents, i as int));
        let ghost m2 = m_full.restrict(prefix_keys(bents, i + 1));
        let ghost k = bents[i as int].0;
        let ghost e = bents[i as int].1;
        let ghost t0 = t@;
        proof {
            assert(m_full.dom().contains(k) && m_full[k] == e);
            assert(!prefix_keys(bents, i as int).contains(k));
            assert(!mi.dom().contains(k));
            assert(m2 =~= mi.insert(k, e)) by {
                assert forall|q: Seq<char>|
                    prefix_keys(bents, i + 1).contains(q) <==> (prefix_keys(
                        bents,
                        i as int,
                    ).contains(q) || q == k) by {
                    if prefix_keys(bents, i + 1).contains(q) {
                        let j = choose|j: int| 0 <= j < i + 1 && (#[trigger] bents[j]).0 == q;
                        if j < i {
                            assert(prefix_keys(bents, i as int).contains(q));
                        }
                    }
                    if prefix_keys(bents, i as int).contains(q) {
                        let j = choose|j: int| 0 <= j < i && (#[trigger] bents[j]).0 == q;
                        assert(0 <= j < i + 1 && bents[j].0 == q);
                    }
                    if q == k {
                        assert(0 <= i < i + 1 && bents[i as int].0 == q);
                    }
                }
            }
            assert forall|q: Seq<char>| #[trigger]
                rename_targets(m2, q) == (if e.oldest == Some(q) {
                    rename_targets(mi, q).insert(k)
                } else {
                    rename_targets(mi, q)
                }) by {
                if e.oldest == Some(q) {
                    assert(rename_targets(m2, q) =~= rename_targets(mi, q).insert(k));
                } else {
                    assert(rename_targets(m2, q) =~= rename_targets(mi, q));
                }
            }
            assert(mi.dom().finite()) by {
                assert(mi.dom().subset_of(m_full.dom()));
                vstd::set_lib::lemma_len_subset(mi.dom(), m_full.dom());
            }
        }
        let entry = &entries[i];
        if let Some(op) = &entry.1 {
            let ghost o = op@;
            proof {
                assert(e.oldest == Some(o));
                lemma_rt_finite(mi, o);
            }
            match t.remove(op) {
                Some(mut ce) => {
                    ce.rename.add(entry.0.clone());
                    let ghost cev = ce@;
                    t.insert(op.clone(), ce);
                    proof {
                        assert(cev.targets == rename_targets(mi, o).insert(k));
                    }
                },
                None => {
                    proof {
                        assert(rename_targets(mi, o).len() == 0);
                        assert(rename_targets(mi, o) == Set::<Seq<char>>::empty());
                    }
                    let ce = ConflictEntry {
                        rename: PathRename::One(entry.0.clone()),
                        event: None,
                    };
                    proof {
                        assert(ce@.targets =~= rename_targets(mi, o).insert(k));
                    }
                    t.insert(op.clone(), ce);
                },
            }
        }
        let ghost t1 = t@;
        if let Some(ev) = &entry.2 {
            match t.remove(&entry.0) {
                Some(ce) => {
                    let ce2 = ConflictEntry { rename: ce.rename, event: Some(ev.duplicate()) };
                    t.insert(entry.0.clone(), ce2);
                },
                None => {
                    let ce2 = ConflictEntry { rename: PathRename::NoRename, event: Some(
                        ev.duplicate(),
                    ) };
                    proof {
                        assert(ce2@.targets =~= Set::<Seq<char>>::empty());
                    }
                    t.insert(entry.0.clone(), ce2);
                },
            }
        }
        proof {
            lemma_rt_finite(m2, k);
            assert forall|q: Seq<char>| #[trigger]
                t@.dom().contains(q) <==> (rename_targets(m2, q).len() > 0 || (m2.dom().contains(
                    q,
                ) && m2[q].event is Some)) by {
                lemma_rt_finite(mi, q);
                lemma_rt_finite(m2, q);
                vstd::set::axiom_set_insert_len(rename_targets(mi, q), k);
            }
            assert forall|q: Seq<char>| #[trigger]
                t@.dom().contains(q) implies t@[q].targets == rename_targets(m2, q) && t@[q].event
                == (if m2.dom().contains(q) {
                m2[q].event
            } else {
                None
            }) by {
                lemma_rt_finite(mi, q);
                lemma_rt_finite(m2, q);
                vstd::set::axiom_set_insert_len(rename_targets(mi, q), k);
            }
        }
        i = i + 1;
    }
    proof {
        assert(m_full.restrict(prefix_keys(bents, n as int)) =~= m_full) by {
            assert forall|q: Seq<char>| #[trigger]
                m_full.dom().contains(q) implies prefix_keys(bents, n as int).contains(q) by {
                let j = choose|j: int|
                    0 <= j < bents.len() && #[trigger] bents[j].0 == q;
                assert(0 <= j < n && bents[j].0 == q);
            }
        }
        lemma_table_matches_unique(m_full, t@);
    }
    t
}

/// What becomes of one write after following the rename chain.
enum Resolved {
    Keep(String),
    Discard,
    Simple(String),
    Multi(String, KeySet<String>),
}

impl View for Resolved {
    type V = ResolvedV;

    closed spec fn view(&self) -> ResolvedV {
        match self {
            Resolved::Keep(p) => ResolvedV::Keep(p@),
            Resolved::Discard => ResolvedV::Discard,
            Resolved::Simple(p) => ResolvedV::Simple(p@),
            Resolved::Multi(p, s) => ResolvedV::Multi(p@, s@),
        }
    }
}

/// Follows the rename chain of one write's path through the conflict table.
#[verifier::loop_isolation(false)]
fn resolve_path(t: &KeyMap<String, ConflictEntry>, path: String, from_fs: bool, fuel: usize) -> (r:
    Resolved)
    requires
        t.wf(),
    ensures
        r@ == spec_resolve(t@, path@, from_fs, fuel as nat),
        match r {
            Resolved::Multi(_, ref s) => s.wf(),
            _ => true,
        },
{
    let ghost orig = path@;
    let mut cur = path;
    let mut f = fuel;
    loop
        invariant
            spec_resolve(t@, orig, from_fs, fuel as nat) == spec_resolve(
                t@,
                cur@,
                from_fs,
                f as nat,
            ),
        decreases f,
    {
        match t.get(&cur) {
            None => {
                return Resolved::Keep(cur);
            },
            Some(ce) => {
                match &ce.rename {
                    PathRename::NoRename => {
                        proof {
                            assert(ce@.targets.len() == 0);
                        }
                        match &ce.event {
                            Some(ev) => {
                                match ev {
                                    crate::debouncer::Event::Create(_)
                                    | crate::debouncer::Event::Modify(_) => {
                                        if from_fs {
                                            return Resolved::Discard;
                                        } else {
                                            return Resolved::Simple(cur);
                                        }
                                    },
                                    crate::debouncer::Event::Delete(_) => {
                                        return Resolved::Discard;
                                    },
                                    crate::debouncer::Event::Rename(_, _) => {
                                        return Resolved::Keep(cur);
                                    },
                                }
                            },
                            None => {
                                return Resolved::Keep(cur);
                            },
                        }
                    },
                    PathRename::One(target) => {
                        proof {
                            vstd::set::axiom_set_insert_len(Set::<Seq<char>>::empty(), target@);
                            assert(ce@.targets.len() == 1);
                            lemma_singleton_choose(ce@.targets, target@);
                        }
                        if f == 0 {
                            return Resolved::Keep(cur);
                        }
                        f = f - 1;
                        cur = target.clone();
                    },
                    PathRename::Many(s) => {
                        proof {
                            assert(ce@.targets.len() >= 2);
                        }
                        return Resolved::Multi(cur, s.duplicate());
                    },
                }
            },
        }
    }
}

/// A conflict detection system that ensures the writes emerging from
/// processing a filesystem update don't conflict with later filesystem
/// updates, and that out-of-band modifications don't conflict with the
/// filesystem either. It warns of conflicts; it never resolves them.
pub struct ConflictDetector {
    /// Patch identifiers to information about the patches, including a
    /// theoretical entry for the next patch.
    patch_table: KeyMap<u32, PatchTableEntry>,
    /// The index of the next patch that will come through the system.
    next_patch: u32,
    /// The reference count of the next patch that will come through the
    /// system; the in-table count of the theoretical entry stays zero.
    next_ref_count: u32,
}

impl ConflictDetector {
    pub closed spec fn table(&self) -> Map<u32, PatchTableEntryV> {
        self.patch_table@
    }

    pub closed spec fn next_idx(&self) -> u32 {
        self.next_patch
    }

    pub closed spec fn next_refs(&self) -> u32 {
        self.next_ref_count
    }

    pub closed spec fn wf(&self) -> bool {
        &&& self.patch_table.wf()
        &&& self.patch_table@.dom().contains(self.next_patch)
        &&& self.patch_table@[self.next_patch].ref_count == 0
    }

    /// Creates a new, empty [`ConflictDetector`].
    pub fn new() -> (r: Self)
        ensures
            r.wf(),
            r.table() == Map::<u32, PatchTableEntryV>::empty().insert(0u32, spec_empty_entry(0)),
            r.next_idx() == 0,
            r.next_refs() == 0,
    {
        let mut patch_table: KeyMap<u32, PatchTableEntry> = KeyMap::new();
        let entry = PatchTableEntry {
            ref_count: 0,  // Dummy
            events_since: DebouncedEvents::new(),
            other_writes: KeySet::new(),
        };
        proof {
            assert(entry@.events_since =~= Map::<Seq<char>, DebouncedEntryV>::empty());
            assert(entry@.other_writes =~= Set::<Seq<char>>::empty());
        }
        patch_table.insert(0, entry);
        ConflictDetector { patch_table, next_patch: 0, next_ref_count: 0 }
    }

    /// Registers a new update as starting to be processed right this instant.
    /// The returned number is passed back to [`Self::detect_conflicts`] with
    /// the writes the update wants to perform.
    pub fn register_update(&mut self) -> (r: u32)
        requires
            old(self).wf(),
            old(self).next_refs() < u32::MAX,
        ensures
            final(self).wf(),
            r == old(self).next_idx(),
            final(self).table() == old(self).table(),
            final(self).next_idx() == old(self).next_idx(),
            final(self).next_refs() == old(self).next_refs() + 1,
    {
        // The in-table reference count of the theoretical entry is a dummy.
        self.next_ref_count = self.next_ref_count + 1;
        self.next_patch
    }

    /// Adds a new patch to the conflict detector, combining its events into
    /// every patch still in the table, making the theoretical next patch real
    /// (or discarding it when nothing depends on it), and installing a fresh
    /// theoretical entry. Returns the id of the *new* next patch, which the
    /// caller's own processing will depend on.
    pub fn add_patch(&mut self, events: DebouncedEvents) -> (r: u32)
        requires
            old(self).wf(),
            events.wf(),
            old(self).next_idx() < u32::MAX,
        ensures
            final(self).wf(),
            r == old(self).next_idx() + 1,
            final(self).next_idx() == r,
            final(self).next_refs() == 1,
            final(self).table() == ({
                let comb = Map::new(
                    |k: u32| old(self).table().dom().contains(k),
                    |k: u32|
                        PatchTableEntryV {
                            ref_count: old(self).table()[k].ref_count,
                            events_since: DebouncedEvents::spec_combine(
                                old(self).table()[k].events_since,
                                events.entries(),
                            ),
                            other_writes: old(self).table()[k].other_writes,
                        },
                );
                let rotated = if old(self).next_refs() == 0 {
                    comb.remove(old(self).next_idx())
                } else {
                    comb.insert(
                        old(self).next_idx(),
                        PatchTableEntryV {
                            ref_count: old(self).next_refs(),
                            events_since: comb[old(self).next_idx()].events_since,
                            other_writes: comb[old(self).next_idx()].other_writes,
                        },
                    )
                };
                rotated.insert((old(self).next_idx() + 1) as u32, spec_empty_entry(0))
            }),
    {
        let ghost old_table = self.patch_table@;
        let ghost comb = Map::new(
            |k: u32| old_table.dom().contains(k),
            |k: u32|
                PatchTableEntryV {
                    ref_count: old_table[k].ref_count,
                    events_since: DebouncedEvents::spec_combine(
                        old_table[k].events_since,
                        events.entries(),
                    ),
                    other_writes: old_table[k].other_writes,
                },
        );
        // Update every patch in the table with the events that have occurred:
        // anything depending on them will want to know.
        let n = self.patch_table.num_entries();
        let mut i: usize = 0;
        while i < n
            invariant
                self.patch_table.wf(),
                events.wf(),
                n == self.patch_table.kseq().len(),
                0 <= i <= n,
                self.patch_table.kseq() == old(self).patch_table.kseq(),
                comb == Map::new(
                    |k: u32| old_table.dom().contains(k),
                    |k: u32|
                        PatchTableEntryV {
                            ref_count: old_table[k].ref_count,
                            events_since: DebouncedEvents::spec_combine(
                                old_table[k].events_since,
                                events.entries(),
                            ),
                            other_writes: old_table[k].other_writes,
                        },
                ),
                old_table == old(self).patch_table@,
                self.next_patch == old(self).next_patch,
                self.next_ref_count == old(self).next_ref_count,
                forall|q: u32|
                    self.patch_table@.dom().contains(q) <==> old_table.dom().contains(q),
                forall|j: int|
                    0 <= j < i ==> self.patch_table@[#[trigger] self.patch_table.kseq()[j]]
                        == comb[self.patch_table.kseq()[j]],
                forall|j: int|
                    i <= j < n ==> self.patch_table@[#[trigger] self.patch_table.kseq()[j]]
                        == old_table[self.patch_table.kseq()[j]],
            decreases n - i,
        {
            let dummy = PatchTableEntry {
                ref_count: 0,
                events_since: DebouncedEvents::new(),
                other_writes: KeySet::new(),
            };
            proof {
                self.patch_table.lemma_view_props();
                assert(self.patch_table.kseq().contains(self.patch_table.kseq()[i as int]));
            }
            let ghost ks = self.patch_table.kseq();
            let ghost before = self.patch_table@;
            let mut entry = self.patch_table.replace_val_at(i, dummy);
            entry.events_since.combine(&events);
            self.patch_table.replace_val_at(i, entry);
            proof {
                self.patch_table.lemma_view_props();
                assert(entry@ == PatchTableEntryV {
                    ref_count: old_table[ks[i as int]].ref_count,
                    events_since: DebouncedEvents::spec_combine(
                        old_table[ks[i as int]].events_since,
                        events.entries(),
                    ),
                    other_writes: old_table[ks[i as int]].other_writes,
                });
                assert(self.patch_table@ == before.insert(ks[i as int], dummy@).insert(
                    ks[i as int],
                    entry@,
                ));
                assert forall|q: u32|
                    self.patch_table@.dom().contains(q) <==> old_table.dom().contains(
                        q,
                    ) by {
                    if q == ks[i as int] {
                        assert(old_table.dom().contains(q));
                    }
                }
                assert forall|j: int|
                    0 <= j < i + 1 implies self.patch_table@[#[trigger] self.patch_table.kseq()[j]]
                        == comb[self.patch_table.kseq()[j]] by {
                    if j < i {
                        assert(ks[j] != ks[i as int]);
                        assert(self.patch_table@[ks[j]] == before[ks[j]]);
                    } else {
                        assert(self.patch_table@[ks[i as int]] == entry@);
                        assert(comb[ks[i as int]] == entry@);
                    }
                }
                assert forall|j: int|
                    i + 1 <= j < n implies self.patch_table@[#[trigger] self.patch_table.kseq()[j]]
                        == old_table[self.patch_table.kseq()[j]] by {
                    assert(ks[j] != ks[i as int]);
                    assert(self.patch_table@[ks[j]] == before[ks[j]]);
                }
            }
            i = i + 1;
        }
        proof {
            self.patch_table.lemma_view_props();
            assert(self.patch_table@ =~= comb) by {
                assert forall|q: u32| comb.dom().contains(q) implies self.patch_table@[q]
                    == comb[q] by {
                    assert(self.patch_table.kseq().contains(q));
                    let j = choose|j: int|
                        0 <= j < self.patch_table.kseq().len() && self.patch_table.kseq()[j] == q;
                    assert(self.patch_table@[self.patch_table.kseq()[j]]
                        == comb[self.patch_table.kseq()[j]]);
                }
            }
        }
        // The theoretical entry becomes real, or is actively removed when
        // nothing ever registered against it.
        proof {
            assert(old_table.dom().contains(self.next_patch));
            assert(self.patch_table@.dom().contains(self.next_patch));
        }
        if self.next_ref_count == 0 {
            self.patch_table.remove(&self.next_patch);
        } else {
            let removed = self.patch_table.remove(&self.next_patch);
            if let Some(mut entry) = removed {
                entry.ref_count = self.next_ref_count;
                self.patch_table.insert(self.next_patch, entry);
            }
            proof {
                assert(self.patch_table@ =~= comb.insert(
                    old(self).next_idx(),
                    PatchTableEntryV {
                        ref_count: old(self).next_refs(),
                        events_since: comb[old(self).next_idx()].events_since,
                        other_writes: comb[old(self).next_idx()].other_writes,
                    },
                ));
            }
        }
        // A reference to the next patch exists already: our own patch's
        // processing is about to start against it.
        self.next_ref_count = 1;
        self.next_patch = self.next_patch + 1;
        let fresh = PatchTableEntry {
            ref_count: 0,  // Dummy
            events_since: DebouncedEvents::new(),
            other_writes: KeySet::new(),
        };
        proof {
            assert(fresh@.events_since =~= Map::<Seq<char>, DebouncedEntryV>::empty());
            assert(fresh@.other_writes =~= Set::<Seq<char>>::empty());
        }
        self.patch_table.insert(self.next_patch, fresh);
        self.next_patch
    }

    /// Records that an out-of-band write went to `path` on every live patch,
    /// so that later corrective filesystem writes to it are dropped.
    #[verifier::loop_isolation(false)]
    fn record_other_write(&mut self, path: &String)
        requires
            old(self).patch_table.wf(),
        ensures
            final(self).patch_table.wf(),
            final(self).next_patch == old(self).next_patch,
            final(self).next_ref_count == old(self).next_ref_count,
            final(self).patch_table.kseq() == old(self).patch_table.kseq(),
            final(self).patch_table@ == Map::new(
                |k: u32| old(self).patch_table@.dom().contains(k),
                |k: u32|
                    PatchTableEntryV {
                        ref_count: old(self).patch_table@[k].ref_count,
                        events_since: old(self).patch_table@[k].events_since,
                        other_writes: old(self).patch_table@[k].other_writes.insert(path@),
                    },
            ),
    {
        let ghost old_table = self.patch_table@;
        let ghost upd = Map::new(
            |k: u32| old_table.dom().contains(k),
            |k: u32|
                PatchTableEntryV {
                    ref_count: old_table[k].ref_count,
                    events_since: old_table[k].events_since,
                    other_writes: old_table[k].other_writes.insert(path@),
                },
        );
        let n = self.patch_table.num_entries();
        let mut i: usize = 0;
        while i < n
            invariant
                self.patch_table.wf(),
                0 <= i <= n,
                self.patch_table.kseq() == old(self).patch_table.kseq(),
                self.next_patch == old(self).next_patch,
                self.next_ref_count == old(self).next_ref_count,
                forall|q: u32|
                    self.patch_table@.dom().contains(q) <==> old_table.dom().contains(q),
                forall|j: int|
                    0 <= j < i ==> self.patch_table@[#[trigger] self.patch_table.kseq()[j]]
                        == upd[self.patch_table.kseq()[j]],
                forall|j: int|
                    i <= j < n ==> self.patch_table@[#[trigger] self.patch_table.kseq()[j]]
                        == old_table[self.patch_table.kseq()[j]],
            decreases n - i,
        {
            proof {
                self.patch_table.lemma_view_props();
                assert(self.patch_table.kseq().contains(self.patch_table.kseq()[i as int]));
            }
            let ghost ks = self.patch_table.kseq();
            let ghost before = self.patch_table@;
            let dummy = PatchTableEntry {
                ref_count: 0,
                events_since: DebouncedEvents::new(),
                other_writes: KeySet::new(),
            };
            let mut entry = self.patch_table.replace_val_at(i, dummy);
            entry.other_writes.insert(path.clone());
            self.patch_table.replace_val_at(i, entry);
            proof {
                self.patch_table.lemma_view_props();
                assert(entry@ == upd[ks[i as int]]);
                assert forall|q: u32|
                    self.patch_table@.dom().contains(q) <==> old_table.dom().contains(q) by {
                    if q == ks[i as int] {
                        assert(old_table.dom().contains(q));
                    }
                }
                assert forall|j: int|
                    0 <= j < i + 1 implies self.patch_table@[#[trigger] self.patch_table.kseq()[j]]
                        == upd[self.patch_table.kseq()[j]] by {
                    if j < i {
                        assert(ks[j] != ks[i as int]);
                        assert(self.patch_table@[ks[j]] == before[ks[j]]);
                    }
                }
                assert forall|j: int|
                    i + 1 <= j < n implies self.patch_table@[
                        #[trigger] self.patch_table.kseq()[j]
                    ] == old_table[self.patch_table.kseq()[j]] by {
                    assert(ks[j] != ks[i as int]);
                    assert(self.patch_table@[ks[j]] == before[ks[j]]);
                }
            }
            i = i + 1;
        }
        proof {
            self.patch_table.lemma_view_props();
            assert(self.patch_table@ =~= upd) by {
                assert forall|q: u32| upd.dom().contains(q) implies self.patch_table@[q]
                    == upd[q] by {
                    assert(self.patch_table.kseq().contains(q));
                    let j = choose|j: int|
                        0 <= j < self.patch_table.kseq().len() && self.patch_table.kseq()[j] == q;
                    assert(self.patch_table@[self.patch_table.kseq()[j]]
                        == upd[self.patch_table.kseq()[j]]);
                }
            }
        }
    }

    /// Passes one resolved write through the out-of-band filter, pushing it
    /// onto `result` if it survives.
    fn filter_one(&mut self, patch_idx: u32, w1: Write, result: &mut Vec<Write>)
        requires
            old(self).patch_table.wf(),
            old(self).patch_table@.dom().contains(patch_idx),
            w1.inv(),
            forall|i: int| 0 <= i < old(result)@.len() ==> (#[trigger] old(result)@[i]).inv(),
        ensures
            final(self).patch_table.wf(),
            final(self).next_patch == old(self).next_patch,
            final(self).next_ref_count == old(self).next_ref_count,
            forall|i: int| 0 <= i < final(result)@.len() ==> (#[trigger] final(result)@[i]).inv(),
            ({
                let (kept, tbl2) = spec_ow_step(old(self).patch_table@, patch_idx, w1@);
                &&& final(self).patch_table@ == tbl2
                &&& writes_view(final(result)@) == (match kept {
                    Some(x) => writes_view(old(result)@).push(x),
                    None => writes_view(old(result)@),
                })
            }),
    {
        let ghost old_res = result@;
        match w1.source {
            WriteSource::Other => {
                // An out-of-band write is about to go through: record it on
                // every patch so filesystem writes to this path are filtered.
                self.record_other_write(&w1.path);
                result.push(w1);
                proof {
                    assert(writes_view(result@) =~= writes_view(old_res).push(result@.last()@));
                }
            },
            WriteSource::Filesystem => {
                // Final check: never override an out-of-band write that has
                // already occurred.
                let mut dropped = false;
                match self.patch_table.get(&patch_idx) {
                    Some(entry) => {
                        if entry.other_writes.contains(&w1.path) {
                            dropped = true;
                        }
                    },
                    None => {},
                }
                if !dropped {
                    result.push(w1);
                    proof {
                        assert(writes_view(result@) =~= writes_view(old_res).push(
                            result@.last()@,
                        ));
                    }
                } else {
                    proof {
                        assert(writes_view(result@) =~= writes_view(old_res));
                    }
                }
            },
        }
    }

    /// Detects conflicts in the given writes with what has occurred since the
    /// update whose [`Self::register_update`] call returned `patch_idx`.
    ///
    /// Writes to files that were deleted since are dropped; writes to files
    /// that were renamed are moved to the new path; writes to files that were
    /// modified concurrently are dropped (for corrective filesystem writes)
    /// or marked with a [`Conflict::Simple`] (for out-of-band writes); a path
    /// renamed to several places yields [`Conflict::Multi`]. Surviving
    /// out-of-band writes are recorded so that corrective writes to the same
    /// paths lose to them: out-of-band writes must be submitted first.
    ///
    /// This decrements the reference count of the patch, discarding its entry
    /// when no registered consumer remains.
    #[verifier::loop_isolation(false)]
    pub fn detect_conflicts(&mut self, patch_idx: u32, writes: Vec<Write>) -> (r: Vec<Write>)
        requires
            old(self).wf(),
            old(self).table().dom().contains(patch_idx),
            patch_idx == old(self).next_idx() ==> old(self).next_refs() > 0,
            patch_idx != old(self).next_idx() ==> old(self).table()[patch_idx].ref_count > 0,
            forall|i: int| 0 <= i < writes@.len() ==> (#[trigger] writes@[i]).inv(),
        ensures
            final(self).wf(),
            final(self).next_idx() == old(self).next_idx(),
            forall|i: int| 0 <= i < r@.len() ==> (#[trigger] r@[i]).inv(),
            ({
                let t = spec_conflict_table(old(self).table()[patch_idx].events_since);
                let fuel = old(self).table()[patch_idx].events_since.dom().len();
                let (res, tbl2) = spec_detect_writes(
                    t,
                    old(self).table(),
                    patch_idx,
                    writes_view(writes@),
                    fuel,
                );
                &&& writes_view(r@) == res
                &&& final(self).next_refs() == (if patch_idx == old(self).next_idx() {
                    (old(self).next_refs() - 1) as u32
                } else {
                    old(self).next_refs()
                })
                &&& final(self).table() == (if patch_idx == old(self).next_idx() {
                    tbl2
                } else if old(self).table()[patch_idx].ref_count == 1 {
                    tbl2.remove(patch_idx)
                } else {
                    tbl2.insert(
                        patch_idx,
                        PatchTableEntryV {
                            ref_count: (old(self).table()[patch_idx].ref_count - 1) as u32,
                            events_since: tbl2[patch_idx].events_since,
                            other_writes: tbl2[patch_idx].other_writes,
                        },
                    )
                })
            }),
    {
        let ghost t_spec = spec_conflict_table(old(self).table()[patch_idx].events_since);
        let ghost ws = writes_view(writes@);
        let ghost fuel_spec = old(self).table()[patch_idx].events_since.dom().len();
        let ghost full = spec_detect_writes(
            t_spec,
            old(self).table(),
            patch_idx,
            ws,
            fuel_spec,
        );
        // Convert the events accumulated since this patch into a table
        // indexed by the *old* paths (those in each write).
        let mut table: KeyMap<String, ConflictEntry> = KeyMap::new();
        let mut fuel: usize = 0;
        match self.patch_table.get(&patch_idx) {
            Some(entry) => {
                table = build_conflict_table(&entry.events_since);
                fuel = entry.events_since.len();
            },
            None => {},
        }
        proof {
            assert(table@ == t_spec);
            assert(fuel as nat == fuel_spec);
        }
        let n = writes.len();
        let mut result: Vec<Write> = Vec::new();
        proof {
            assert(ws.skip(0) =~= ws);
            let (rest, t2) = spec_detect_writes(
                t_spec,
                self.patch_table@,
                patch_idx,
                ws,
                fuel_spec,
            );
            assert(writes_view(result@) =~= Seq::<WriteV>::empty());
            assert(writes_view(result@) + rest =~= rest);
        }
        let mut j: usize = 0;
        while j < n
            invariant
                self.patch_table.wf(),
                0 <= j <= n,
                self.next_patch == old(self).next_patch,
                self.next_ref_count == old(self).next_ref_count,
                table@ == t_spec,
                fuel as nat == fuel_spec,
                forall|q: u32|
                    self.patch_table@.dom().contains(q) <==> old(self).patch_table@.dom().contains(
                        q,
                    ),
                forall|q: u32|
                    old(self).patch_table@.dom().contains(q) ==> (
                    #[trigger] self.patch_table@[q]).ref_count == old(self).patch_table@[
                        q
                    ].ref_count,
                forall|i: int| 0 <= i < result@.len() ==> (#[trigger] result@[i]).inv(),
                full == ({
                    let (rest, t2) = spec_detect_writes(
                        t_spec,
                        self.patch_table@,
                        patch_idx,
                        ws.skip(j as int),
                        fuel_spec,
                    );
                    (writes_view(result@) + rest, t2)
                }),
            decreases n - j,
        {
            let ghost tbl_j = self.patch_table@;
            let ghost res_j = result@;
            proof {
                assert(ws.skip(j as int)[0] == ws[j as int]);
                assert(ws.skip(j as int).drop_first() =~= ws.skip(j + 1));
            }
            let w = writes[j].duplicate();
            let from_fs = match w.source {
                WriteSource::Filesystem => true,
                WriteSource::Other => false,
            };
            let Write { path, contents, source, conflict } = w;
            let resolved = resolve_path(&table, path, from_fs, fuel);
            match resolved {
                Resolved::Discard => {},
                Resolved::Keep(p) => {
                    let w1 = Write { path: p, contents, source, conflict };
                    self.filter_one(patch_idx, w1, &mut result);
                },
                Resolved::Simple(p) => {
                    let w1 = Write { path: p, contents, source, conflict: Conflict::Simple };
                    self.filter_one(patch_idx, w1, &mut result);
                },
                Resolved::Multi(p, s) => {
                    let w1 = Write { path: p, contents, source, conflict: Conflict::Multi(s) };
                    self.filter_one(patch_idx, w1, &mut result);
                },
            }
            proof {
                let w0 = ws[j as int];
                let resolved_spec = spec_resolve(
                    t_spec,
                    w0.path,
                    w0.source is Filesystem,
                    fuel_spec,
                );
                match spec_apply_resolution(w0, resolved_spec) {
                    None => {
                        assert(self.patch_table@ == tbl_j);
                        assert(result@ == res_j);
                    },
                    Some(w1v) => {
                        let (kept, tbl1) = spec_ow_step(tbl_j, patch_idx, w1v);
                        match kept {
                            Some(x) => {
                                assert(writes_view(result@) == writes_view(res_j).push(x));
                                assert(writes_view(result@) + spec_detect_writes(
                                    t_spec,
                                    self.patch_table@,
                                    patch_idx,
                                    ws.skip(j + 1),
                                    fuel_spec,
                                ).0 =~= writes_view(res_j) + (seq![x] + spec_detect_writes(
                                    t_spec,
                                    self.patch_table@,
                                    patch_idx,
                                    ws.skip(j + 1),
                                    fuel_spec,
                                ).0));
                            },
                            None => {},
                        }
                    },
                }
            }
            j = j + 1;
        }
        proof {
            assert(ws.skip(n as int) =~= Seq::<WriteV>::empty());
            assert(writes_view(result@) + Seq::<WriteV>::empty() =~= writes_view(result@));
            assert(full.0 == writes_view(result@));
            assert(full.1 == self.patch_table@);
        }
        // Decrement the reference count; at zero the entry is discarded (for
        // the theoretical patch, the separate count is used instead).
        if patch_idx == self.next_patch {
            self.next_ref_count = self.next_ref_count - 1;
        } else {
            proof {
                assert(self.patch_table@.dom().contains(patch_idx));
            }
            let removed = self.patch_table.remove(&patch_idx);
            if let Some(mut entry) = removed {
                if entry.ref_count == 1 {
                    // The last consumer is done with this patch.
                } else {
                    entry.ref_count = entry.ref_count - 1;
                    self.patch_table.insert(patch_idx, entry);
                    proof {
                        assert(self.patch_table@ =~= full.1.insert(
                            patch_idx,
                            PatchTableEntryV {
                                ref_count: (old(self).table()[patch_idx].ref_count - 1) as u32,
                                events_since: full.1[patch_idx].events_since,
                                other_writes: full.1[patch_idx].other_writes,
                            },
                        ));
                    }
                }
            }
        }
        result
    }
}

} // verus!
