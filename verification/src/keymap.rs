//! Small verified map and set containers backed by association lists.
//!
//! The graph keys its global tables by node identifiers and by relative paths,
//! and the reconciliation logic iterates over whole tables in a deterministic
//! order. These containers give both: a `Map`/`Set` view for contracts, and
//! index-based access in insertion order for loops.

use vstd::prelude::*;

verus! {

/// A key type usable in [`KeyMap`] and [`KeySet`]: equality and cloning of the
/// executable value agree with its mathematical view.
pub trait MapKey: View + Sized {
    fn key_eq(&self, other: &Self) -> (r: bool)
        ensures
            r == (self@ == other@),
    ;

    fn key_clone(&self) -> (r: Self)
        ensures
            r@ == self@,
    ;
}

impl MapKey for u128 {
    fn key_eq(&self, other: &Self) -> (r: bool)
        ensures
            r == (self@ == other@),
    {
        *self == *other
    }

    fn key_clone(&self) -> (r: Self)
        ensures
            r@ == self@,
    {
        *self
    }
}

impl MapKey for u32 {
    fn key_eq(&self, other: &Self) -> (r: bool)
        ensures
            r == (self@ == other@),
    {
        *self == *other
    }

    fn key_clone(&self) -> (r: Self)
        ensures
            r@ == self@,
    {
        *self
    }
}

impl MapKey for String {
    fn key_eq(&self, other: &Self) -> (r: bool)
        ensures
            r == (self@ == other@),
    {
        self.eq(other)
    }

    fn key_clone(&self) -> (r: Self)
        ensures
            r@ == self@,
    {
        self.clone()
    }
}

/// A value type usable in [`KeyMap`]: its representation invariant, which the
/// map preserves for every stored value, and a copy with the same view.
pub trait Stored: View {
    spec fn inv(&self) -> bool;

    fn duplicate(&self) -> (r: Self) where Self: Sized
        requires
            self.inv(),
        ensures
            r@ == self@,
            r.inv(),
    ;
}

impl Stored for String {
    open spec fn inv(&self) -> bool {
        true
    }

    fn duplicate(&self) -> (r: Self)
        ensures
            r@ == self@,
            r.inv(),
    {
        self.clone()
    }
}

impl Stored for u128 {
    open spec fn inv(&self) -> bool {
        true
    }

    fn duplicate(&self) -> (r: Self)
        ensures
            r@ == self@,
            r.inv(),
    {
        *self
    }
}

/// A map from keys to values, kept as parallel vectors in insertion order.
/// Its view maps key views to value views.
pub struct KeyMap<K: MapKey, V: Stored> {
    keys: Vec<K>,
    vals: Vec<V>,
    m: Ghost<Map<<K as View>::V, <V as View>::V>>,
}

impl<K: MapKey, V: Stored> View for KeyMap<K, V> {
    type V = Map<<K as View>::V, <V as View>::V>;

    closed spec fn view(&self) -> Map<<K as View>::V, <V as View>::V> {
        self.m@
    }
}

impl<K: MapKey, V: Stored> KeyMap<K, V> {
    /// The views of the stored keys, in insertion order.
    pub closed spec fn kseq(&self) -> Seq<<K as View>::V> {
        self.keys@.map_values(|k: K| k@)
    }

    pub closed spec fn wf(&self) -> bool {
        &&& self.keys@.len() == self.vals@.len()
        &&& self.kseq().no_duplicates()
        &&& forall|q: <K as View>::V|
            #![trigger self.m@.dom().contains(q)]
            #![trigger self.kseq().contains(q)]
            self.m@.dom().contains(q) <==> self.kseq().contains(q)
        &&& forall|i: int|
            0 <= i < self.keys@.len() ==> self.m@[#[trigger] self.kseq()[i]] == self.vals@[i]@
        &&& forall|i: int| 0 <= i < self.vals@.len() ==> (#[trigger] self.vals@[i]).inv()
    }

    pub fn new() -> (r: Self)
        ensures
            r.wf(),
            r@ == Map::<<K as View>::V, <V as View>::V>::empty(),
            r.kseq() == Seq::<<K as View>::V>::empty(),
    {
        let r = KeyMap { keys: Vec::new(), vals: Vec::new(), m: Ghost(Map::empty()) };
        proof {
            assert(r.kseq() =~= Seq::<<K as View>::V>::empty());
        }
        r
    }

    /// The number of entries, equal to the cardinality of the map's domain.
    pub fn len(&self) -> (r: usize)
        requires
            self.wf(),
        ensures
            r == self.kseq().len(),
            r == self@.dom().len(),
    {
        proof {
            self.lemma_dom_len();
        }
        self.keys.len()
    }

    /// What the representation guarantees: the key sequence has no duplicates
    /// and enumerates exactly the map's domain.
    pub proof fn lemma_view_props(&self)
        requires
            self.wf(),
        ensures
            self.kseq().no_duplicates(),
            forall|q: <K as View>::V|
                #![trigger self@.dom().contains(q)]
                #![trigger self.kseq().contains(q)]
                self@.dom().contains(q) <==> self.kseq().contains(q),
    {
    }

    pub proof fn lemma_dom_len(&self)
        requires
            self.wf(),
        ensures
            self@.dom().len() == self.kseq().len(),
            self@.dom().finite(),
    {
        assert(self@.dom() =~= self.kseq().to_set());
        self.kseq().unique_seq_to_set();
    }

    /// Index of the entry with the given key, if present.
    fn index_of(&self, k: &K) -> (r: Option<usize>)
        requires
            self.wf(),
        ensures
            match r {
                Some(i) => i < self.kseq().len() && self.kseq()[i as int] == k@,
                None => !self@.dom().contains(k@),
            },
    {
        let n = self.keys.len();
        let mut i: usize = 0;
        while i < n
            invariant
                self.wf(),
                n == self.keys@.len(),
                0 <= i <= n,
                forall|j: int| 0 <= j < i ==> self.kseq()[j] != k@,
            decreases n - i,
        {
            if self.keys[i].key_eq(k) {
                return Some(i);
            }
            i = i + 1;
        }
        proof {
            assert(!self.kseq().contains(k@));
        }
        None
    }

    pub fn contains_key(&self, k: &K) -> (r: bool)
        requires
            self.wf(),
        ensures
            r == self@.dom().contains(k@),
    {
        match self.index_of(k) {
            Some(i) => {
                proof {
                    assert(self.kseq().contains(k@));
                }
                true
            },
            None => false,
        }
    }

    pub fn get(&self, k: &K) -> (r: Option<&V>)
        requires
            self.wf(),
        ensures
            match r {
                Some(v) => self@.dom().contains(k@) && v@ == self@[k@] && v.inv(),
                None => !self@.dom().contains(k@),
            },
    {
        match self.index_of(k) {
            Some(i) => {
                proof {
                    assert(self.kseq().contains(k@));
                }
                Some(&self.vals[i])
            },
            None => None,
        }
    }

    pub fn insert(&mut self, k: K, v: V)
        requires
            old(self).wf(),
            v.inv(),
        ensures
            final(self).wf(),
            final(self)@ == old(self)@.insert(k@, v@),
            old(self)@.dom().contains(k@) ==> final(self).kseq() == old(self).kseq(),
            !old(self)@.dom().contains(k@) ==> final(self).kseq() == old(self).kseq().push(k@),
    {
        let ghost k_view = k@;
        match self.index_of(&k) {
            Some(i) => {
                proof {
                    assert(old(self).kseq().contains(k_view));
                }
                let ghost v_view = v@;
                self.vals[i] = v;
                proof {
                    self.m@ = self.m@.insert(k_view, v_view);
                    assert(self.kseq() =~= old(self).kseq());
                    assert forall|j: int|
                        0 <= j < self.keys@.len() implies self.m@[#[trigger] self.kseq()[j]]
                        == self.vals@[j]@ by {
                        if self.kseq()[j] == k_view {
                            assert(j == i);
                        }
                    }
                }
            },
            None => {
                let ghost v_view = v@;
                self.keys.push(k);
                self.vals.push(v);
                proof {
                    self.m@ = self.m@.insert(k_view, v_view);
                    assert(self.kseq() =~= old(self).kseq().push(k_view));
                    assert forall|q: <K as View>::V|
                        self.m@.dom().contains(q) <==> #[trigger] self.kseq().contains(q) by {
                        if q == k_view {
                            assert(self.kseq()[self.kseq().len() - 1] == k_view);
                        } else {
                            assert(self.kseq().contains(q) <==> old(self).kseq().contains(q)) by {
                                if old(self).kseq().contains(q) {
                                    let j = choose|j: int|
                                        0 <= j < old(self).kseq().len() && old(self).kseq()[j] == q;
                                    assert(self.kseq()[j] == q);
                                }
                            }
                        }
                    }
                }
            },
        }
    }

    pub fn remove(&mut self, k: &K) -> (r: Option<V>)
        requires
            old(self).wf(),
        ensures
            final(self).wf(),
            final(self)@ == old(self)@.remove(k@),
            match r {
                Some(v) => old(self)@.dom().contains(k@) && v@ == old(self)@[k@] && v.inv(),
                None => !old(self)@.dom().contains(k@),
            },
    {
        match self.index_of(k) {
            Some(i) => {
                proof {
                    assert(self.kseq().contains(k@));
                }
                let ghost old_kseq = self.kseq();
                self.keys.remove(i);
                let v = self.vals.remove(i);
                proof {
                    self.m@ = self.m@.remove(k@);
                    assert(self.kseq() =~= old_kseq.remove(i as int));
                    assert forall|q: <K as View>::V|
                        self.m@.dom().contains(q) <==> #[trigger] self.kseq().contains(q) by {
                        if q == k@ {
                            assert forall|j: int|
                                0 <= j < self.kseq().len() implies self.kseq()[j] != k@ by {
                                if j < i {
                                    assert(old_kseq[j] == self.kseq()[j]);
                                } else {
                                    assert(old_kseq[j + 1] == self.kseq()[j]);
                                }
                            }
                        } else {
                            if old_kseq.contains(q) {
                                let j = choose|j: int|
                                    0 <= j < old_kseq.len() && old_kseq[j] == q;
                                if j < i {
                                    assert(self.kseq()[j] == q);
                                } else {
                                    assert(j != i);
                                    assert(self.kseq()[j - 1] == q);
                                }
                            }
                            if self.kseq().contains(q) {
                                let j = choose|j: int|
                                    0 <= j < self.kseq().len() && self.kseq()[j] == q;
                                if j < i {
                                    assert(old_kseq[j] == q);
                                } else {
                                    assert(old_kseq[j + 1] == q);
                                }
                            }
                        }
                    }
                    assert forall|j: int|
                        0 <= j < self.keys@.len() implies self.m@[#[trigger] self.kseq()[j]]
                        == self.vals@[j]@ by {
                        if j < i {
                            assert(self.kseq()[j] == old_kseq[j]);
                        } else {
                            assert(self.kseq()[j] == old_kseq[j + 1]);
                        }
                    }
                }
                Some(v)
            },
            None => {
                proof {
                    assert(self@ =~= old(self)@.remove(k@));
                }
                None
            },
        }
    }

    /// Number of stored entries, for index-based iteration.
    pub fn num_entries(&self) -> (r: usize)
        ensures
            r == self.kseq().len(),
    {
        self.keys.len()
    }

    pub fn key_at(&self, i: usize) -> (r: &K)
        requires
            self.wf(),
            i < self.kseq().len(),
        ensures
            r@ == self.kseq()[i as int],
            self@.dom().contains(r@),
    {
        proof {
            assert(self.kseq().contains(self.kseq()[i as int]));
        }
        &self.keys[i]
    }

    pub fn val_at(&self, i: usize) -> (r: &V)
        requires
            self.wf(),
            i < self.kseq().len(),
        ensures
            r@ == self@[self.kseq()[i as int]],
            r.inv(),
    {
        &self.vals[i]
    }

    /// Replaces the value at slot `i`, returning the previous one.
    pub fn replace_val_at(&mut self, i: usize, v: V) -> (r: V)
        requires
            old(self).wf(),
            i < old(self).kseq().len(),
            v.inv(),
        ensures
            final(self).wf(),
            final(self).kseq() == old(self).kseq(),
            final(self)@ == old(self)@.insert(old(self).kseq()[i as int], v@),
            r@ == old(self)@[old(self).kseq()[i as int]],
            r.inv(),
    {
        let ghost v_view = v@;
        self.vals.push(v);
        let r = self.vals.swap_remove(i);
        proof {
            let k_view = self.kseq()[i as int];
            self.m@ = self.m@.insert(k_view, v_view);
            assert(self.vals@ =~= old(self).vals@.update(i as int, v));
            assert forall|j: int|
                0 <= j < self.keys@.len() implies self.m@[#[trigger] self.kseq()[j]]
                == self.vals@[j]@ by {
                if self.kseq()[j] == k_view {
                    assert(j == i);
                }
            }
        }
        r
    }
}

/// A copy of a [`KeyMap`] with the same view, element by element.
impl<K: MapKey, V: Stored> KeyMap<K, V> {
    pub fn duplicate(&self) -> (r: Self)
        requires
            self.wf(),
        ensures
            r.wf(),
            r@ == self@,
            r.kseq() == self.kseq(),
    {
        let n = self.keys.len();
        let mut keys: Vec<K> = Vec::new();
        let mut vals: Vec<V> = Vec::new();
        let mut i: usize = 0;
        while i < n
            invariant
                self.wf(),
                n == self.keys@.len(),
                0 <= i <= n,
                keys@.len() == i,
                vals@.len() == i,
                forall|j: int| 0 <= j < i ==> (#[trigger] keys@[j])@ == self.keys@[j]@,
                forall|j: int| 0 <= j < i ==> (#[trigger] vals@[j])@ == self.vals@[j]@,
                forall|j: int| 0 <= j < i ==> (#[trigger] vals@[j]).inv(),
            decreases n - i,
        {
            keys.push(self.keys[i].key_clone());
            vals.push(self.vals[i].duplicate());
            i = i + 1;
        }
        let r = KeyMap { keys, vals, m: Ghost(self.m@) };
        proof {
            assert(r.kseq() =~= self.kseq());
        }
        r
    }
}

impl<K: MapKey, V: Stored> Stored for KeyMap<K, V> {
    open spec fn inv(&self) -> bool {
        self.wf()
    }

    fn duplicate(&self) -> (r: Self)
        ensures
            r@ == self@,
            r.inv(),
    {
        KeyMap::duplicate(self)
    }
}

/// A set of keys, kept as a vector without duplicates, in insertion order.
#[derive(PartialEq, Eq, Debug, Clone)]
pub struct KeySet<K: MapKey> {
    elems: Vec<K>,
}

impl<K: MapKey> View for KeySet<K> {
    type V = Set<<K as View>::V>;

    closed spec fn view(&self) -> Set<<K as View>::V> {
        self.eseq().to_set()
    }
}

impl<K: MapKey> KeySet<K> {
    /// The views of the stored elements, in insertion order.
    pub closed spec fn eseq(&self) -> Seq<<K as View>::V> {
        self.elems@.map_values(|k: K| k@)
    }

    pub closed spec fn wf(&self) -> bool {
        self.eseq().no_duplicates()
    }

    /// What the representation guarantees: the element sequence has no
    /// duplicates and enumerates exactly the set.
    pub proof fn lemma_view_props(&self)
        requires
            self.wf(),
        ensures
            self.eseq().no_duplicates(),
            forall|q: <K as View>::V|
                self@.contains(q) <==> #[trigger] self.eseq().contains(q),
    {
    }

    pub fn new() -> (r: Self)
        ensures
            r.wf(),
            r@ == Set::<<K as View>::V>::empty(),
            r.eseq() == Seq::<<K as View>::V>::empty(),
    {
        let r = KeySet { elems: Vec::new() };
        proof {
            assert(r.eseq() =~= Seq::<<K as View>::V>::empty());
            assert(r@ =~= Set::<<K as View>::V>::empty());
        }
        r
    }

    pub fn len(&self) -> (r: usize)
        requires
            self.wf(),
        ensures
            r == self.eseq().len(),
            r == self@.len(),
    {
        proof {
            self.lemma_card();
        }
        self.elems.len()
    }

    pub proof fn lemma_card(&self)
        requires
            self.wf(),
        ensures
            self@.len() == self.eseq().len(),
            self@.finite(),
    {
        self.eseq().unique_seq_to_set();
    }

    fn index_of(&self, k: &K) -> (r: Option<usize>)
        requires
            self.wf(),
        ensures
            match r {
                Some(i) => i < self.eseq().len() && self.eseq()[i as int] == k@,
                None => !self@.contains(k@),
            },
    {
        let n = self.elems.len();
        let mut i: usize = 0;
        while i < n
            invariant
                self.wf(),
                n == self.elems@.len(),
                0 <= i <= n,
                forall|j: int| 0 <= j < i ==> self.eseq()[j] != k@,
            decreases n - i,
        {
            if self.elems[i].key_eq(k) {
                return Some(i);
            }
            i = i + 1;
        }
        proof {
            assert(!self.eseq().contains(k@));
        }
        None
    }

    pub fn contains(&self, k: &K) -> (r: bool)
        requires
            self.wf(),
        ensures
            r == self@.contains(k@),
    {
        match self.index_of(k) {
            Some(i) => {
                proof {
                    assert(self.eseq().contains(k@));
                }
                true
            },
            None => false,
        }
    }

    pub fn insert(&mut self, k: K)
        requires
            old(self).wf(),
        ensures
            final(self).wf(),
            final(self)@ == old(self)@.insert(k@),
            old(self)@.contains(k@) ==> final(self).eseq() == old(self).eseq(),
            !old(self)@.contains(k@) ==> final(self).eseq() == old(self).eseq().push(k@),
    {
        let ghost k_view = k@;
        match self.index_of(&k) {
            Some(i) => {
                proof {
                    assert(self.eseq().contains(k_view));
                    assert(self@ =~= old(self)@.insert(k_view));
                }
            },
            None => {
                self.elems.push(k);
                proof {
                    assert(self.eseq() =~= old(self).eseq().push(k_view));
                    assert forall|j1: int, j2: int|
                        0 <= j1 < j2 < self.eseq().len() implies self.eseq()[j1]
                        != self.eseq()[j2] by {
                        if j2 == self.eseq().len() - 1 {
                            assert(old(self).eseq()[j1] == self.eseq()[j1]);
                        }
                    }
                    assert(self@ =~= old(self)@.insert(k_view)) by {
                        assert forall|q: <K as View>::V|
                            self.eseq().contains(q) <==> (old(self).eseq().contains(q) || q
                                == k_view) by {
                            if q == k_view {
                                assert(self.eseq()[self.eseq().len() - 1] == k_view);
                            } else {
                                if old(self).eseq().contains(q) {
                                    let j = choose|j: int|
                                        0 <= j < old(self).eseq().len() && old(self).eseq()[j]
                                            == q;
                                    assert(self.eseq()[j] == q);
                                }
                            }
                        }
                    }
                }
            },
        }
    }

    pub fn remove(&mut self, k: &K) -> (r: bool)
        requires
            old(self).wf(),
        ensures
            final(self).wf(),
            final(self)@ == old(self)@.remove(k@),
            r == old(self)@.contains(k@),
    {
        match self.index_of(k) {
            Some(i) => {
                proof {
                    assert(self.eseq().contains(k@));
                }
                let ghost old_eseq = self.eseq();
                self.elems.remove(i);
                proof {
                    assert(self.eseq() =~= old_eseq.remove(i as int));
                    assert forall|j1: int, j2: int|
                        0 <= j1 < j2 < self.eseq().len() implies self.eseq()[j1]
                        != self.eseq()[j2] by {
                        let a1: int = if j1 < i { j1 } else { j1 + 1 };
                        let a2: int = if j2 < i { j2 } else { j2 + 1 };
                        assert(self.eseq()[j1] == old_eseq[a1]);
                        assert(self.eseq()[j2] == old_eseq[a2]);
                    }
                    assert(self@ =~= old(self)@.remove(k@)) by {
                        assert forall|q: <K as View>::V|
                            self.eseq().contains(q) <==> (old_eseq.contains(q) && q != k@) by {
                            if self.eseq().contains(q) {
                                let j = choose|j: int|
                                    0 <= j < self.eseq().len() && self.eseq()[j] == q;
                                let a: int = if j < i { j } else { j + 1 };
                                assert(old_eseq[a] == q);
                                if q == k@ {
                                    assert(old_eseq[i as int] == k@);
                                }
                            }
                            if old_eseq.contains(q) && q != k@ {
                                let j = choose|j: int|
                                    0 <= j < old_eseq.len() && old_eseq[j] == q;
                                assert(j != i);
                                if j < i {
                                    assert(self.eseq()[j] == q);
                                } else {
                                    assert(self.eseq()[j - 1] == q);
                                }
                            }
                        }
                    }
                }
                true
            },
            None => {
                proof {
                    assert(self@ =~= old(self)@.remove(k@));
                }
                false
            },
        }
    }

    pub fn num_elems(&self) -> (r: usize)
        ensures
            r == self.eseq().len(),
    {
        self.elems.len()
    }

    pub fn elem_at(&self, i: usize) -> (r: &K)
        requires
            self.wf(),
            i < self.eseq().len(),
        ensures
            r@ == self.eseq()[i as int],
            self@.contains(r@),
    {
        proof {
            assert(self.eseq().contains(self.eseq()[i as int]));
        }
        &self.elems[i]
    }

    /// A copy of the set; elements are duplicated through [`MapKey::key_clone`].
    pub fn duplicate(&self) -> (r: Self)
        requires
            self.wf(),
        ensures
            r.wf(),
            r@ == self@,
            r.eseq() == self.eseq(),
    {
        let mut elems: Vec<K> = Vec::new();
        let n = self.elems.len();
        let mut i: usize = 0;
        while i < n
            invariant
                n == self.elems@.len(),
                0 <= i <= n,
                elems@.len() == i,
                forall|j: int| 0 <= j < i ==> (#[trigger] elems@[j])@ == self.elems@[j]@,
            decreases n - i,
        {
            elems.push(self.elems[i].key_clone());
            i = i + 1;
        }
        let r = KeySet { elems };
        proof {
            assert(r.eseq() =~= self.eseq());
        }
        r
    }
}

impl Stored for Vec<u128> {
    open spec fn inv(&self) -> bool {
        true
    }

    fn duplicate(&self) -> (r: Self)
        ensures
            r@ == self@,
            r.inv(),
    {
        let mut r: Vec<u128> = Vec::new();
        let n = self.len();
        let mut i: usize = 0;
        while i < n
            invariant
                n == self@.len(),
                0 <= i <= n,
                r@.len() == i,
                forall|j: int| 0 <= j < i ==> r@[j] == self@[j],
            decreases n - i,
        {
            r.push(self[i]);
            i = i + 1;
        }
        proof {
            assert(r@ =~= self@);
        }
        r
    }
}

impl<K: MapKey> Stored for KeySet<K> {
    open spec fn inv(&self) -> bool {
        self.wf()
    }

    fn duplicate(&self) -> (r: Self)
        ensures
            r@ == self@,
            r.inv(),
    {
        KeySet::duplicate(self)
    }
}

} // verus!
