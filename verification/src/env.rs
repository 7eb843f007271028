//! The environment: the databases that exist, by path, with what each keeps
//! and whether a writable handle holds its lock.

use vstd::prelude::*;
use crate::error::Error;
use crate::family::{DataView, FamilyData};
use crate::version::bounded_by;

verus! {

/// What is kept of a database while no handle works on it.
pub struct Store {
    pub path: String,
    pub locked: bool,
    pub families: Vec<FamilyData>,
    pub last_sequence: u64,
    pub next_family_id: u64,
}

/// The mathematical value of a [`Store`].
pub struct StoreView {
    /// A writable handle is open on the database.
    pub locked: bool,
    /// The column families, in the order in which they were made.
    pub families: Seq<DataView>,
    /// The sequence number of the last write.
    pub last_sequence: u64,
    /// The number that the next column family gets.
    pub next_family_id: u64,
}

/// The values of a list of column families.
pub open spec fn data_views(families: Seq<FamilyData>) -> Seq<DataView> {
    Seq::new(families.len(), |i: int| families[i]@)
}

/// The column families are well formed, their versions lie at or below
/// `last_sequence`, and no two have the same name or the same number.
pub open spec fn families_wf(families: Seq<DataView>, last_sequence: u64, next_family_id: u64) -> bool {
    &&& forall|i: int|
        0 <= i < families.len() ==> (#[trigger] families[i]).wf() && bounded_by(
            families[i].versions,
            last_sequence,
        ) && families[i].id < next_family_id
    &&& forall|i: int, j: int|
        0 <= i < j < families.len() ==> (#[trigger] families[i]).name != (
        #[trigger] families[j]).name && families[i].id != families[j].id
}

impl View for Store {
    type V = StoreView;

    open spec fn view(&self) -> StoreView {
        StoreView {
            locked: self.locked,
            families: data_views(self.families@),
            last_sequence: self.last_sequence,
            next_family_id: self.next_family_id,
        }
    }
}

impl StoreView {
    /// What is kept is consistent.
    pub open spec fn wf(self) -> bool {
        families_wf(self.families, self.last_sequence, self.next_family_id)
    }
}

/// The databases that exist.
pub struct Env {
    pub(crate) stores: Vec<Store>,
}

impl View for Env {
    type V = Map<Seq<char>, StoreView>;

    closed spec fn view(&self) -> Map<Seq<char>, StoreView> {
        Map::new(
            |p: Seq<char>| exists|i: int| 0 <= i < self.stores.len() && self.stores[i].path@ == p,
            |p: Seq<char>|
                self.stores[choose|i: int| 0 <= i < self.stores.len() && self.stores[i].path@ == p]@,
        )
    }
}

impl Store {
    /// Whether what is kept is consistent.
    pub fn is_consistent(&self) -> (b: bool)
        ensures
            b == self@.wf(),
    {
        let ghost fs = self@.families;
        let mut i: usize = 0;
        while i < self.families.len()
            invariant
                i <= self.families.len(),
                fs == data_views(self.families@),
                forall|x: int|
                    0 <= x < i ==> (#[trigger] fs[x]).wf() && bounded_by(
                        fs[x].versions,
                        self.last_sequence,
                    ) && fs[x].id < self.next_family_id,
                forall|x: int, y: int|
                    0 <= x < y < i ==> (#[trigger] fs[x]).name != (#[trigger] fs[y]).name
                        && fs[x].id != fs[y].id,
            decreases self.families.len() - i,
        {
            assert(fs[i as int] == self.families[i as int]@);
            if !self.families[i].is_consistent(self.last_sequence) || self.families[i].id
                >= self.next_family_id {
                return false;
            }
            let mut k: usize = 0;
            while k < i
                invariant
                    k <= i < self.families.len(),
                    fs == data_views(self.families@),
                    forall|x: int|
                        0 <= x < k ==> (#[trigger] fs[x]).name != fs[i as int].name && fs[x].id
                            != fs[i as int].id,
                decreases i - k,
            {
                assert(fs[k as int] == self.families[k as int]@);
                assert(fs[i as int] == self.families[i as int]@);
                if self.families[k].name == self.families[i].name || self.families[k].id
                    == self.families[i].id {
                    return false;
                }
                k += 1;
            }
            i += 1;
        }
        true
    }
}

impl Env {
    /// No two databases lie at one path, and what each keeps is consistent.
    pub closed spec fn wf(&self) -> bool {
        &&& forall|i: int, j: int|
            0 <= i < j < self.stores.len() ==> self.stores[i].path@ != self.stores[j].path@
        &&& forall|i: int| 0 <= i < self.stores.len() ==> (#[trigger] self.stores[i])@.wf()
    }

    /// What is kept at each path is consistent.
    pub proof fn lemma_wf(&self, path: Seq<char>)
        requires
            self.wf(),
            self@.contains_key(path),
        ensures
            self@[path].wf(),
    {
    }

    /// An environment without databases.
    pub fn new() -> (r: Env)
        ensures
            r.wf(),
            r@ == Map::<Seq<char>, StoreView>::empty(),
    {
        let r = Env { stores: Vec::new() };
        assert(r@ =~= Map::<Seq<char>, StoreView>::empty());
        r
    }

    /// Takes a database that was kept elsewhere into the environment, at the
    /// path that it names and without a lock. What is not consistent is
    /// refused as corrupt; what would take the place of a database that a
    /// writable handle is open on is refused too.
    pub fn restore(&mut self, store: Store) -> (r: Result<(), Error>)
        requires
            old(self).wf(),
        ensures
            final(self).wf(),
            match r {
                Ok(_) => {
                    &&& store@.wf()
                    &&& !(old(self)@.contains_key(store.path@) && old(self)@[store.path@].locked)
                    &&& final(self)@ == old(self)@.insert(
                        store.path@,
                        StoreView { locked: false, ..store@ },
                    )
                },
                Err(e) => {
                    &&& final(self)@ == old(self)@
                    &&& if !store@.wf() {
                        e == Error::CorruptionError
                    } else {
                        &&& e == Error::LockHeld
                        &&& old(self)@.contains_key(store.path@)
                        &&& old(self)@[store.path@].locked
                    }
                },
            },
    {
        if !store.is_consistent() {
            return Err(Error::CorruptionError);
        }
        let path = store.path.clone();
        match self.find(path.as_str()) {
            Some(i) => {
                if self.stores[i].locked {
                    return Err(Error::LockHeld);
                }
            },
            None => {},
        }
        let mut store = store;
        store.locked = false;
        self.put(path.as_str(), store);
        Ok(())
    }

    /// A copy of what the environment keeps of the database at `path`. Fails
    /// where no database lies there.
    pub fn export(&self, path: &str) -> (r: Result<Store, Error>)
        requires
            self.wf(),
        ensures
            match r {
                Ok(store) => self@.contains_key(path@) && store@ == self@[path@] && store.path@
                    == path@,
                Err(e) => !self@.contains_key(path@) && e == Error::PathError,
            },
    {
        match self.find(path) {
            Some(i) => {
                let families = self.load(i);
                Ok(
                    Store {
                        path: path.to_owned(),
                        locked: self.stores[i].locked,
                        families,
                        last_sequence: self.stores[i].last_sequence,
                        next_family_id: self.stores[i].next_family_id,
                    },
                )
            },
            None => Err(Error::PathError),
        }
    }

    /// The place of the database at `path`, if there is one.
    pub(crate) fn find(&self, path: &str) -> (r: Option<usize>)
        requires
            self.wf(),
        ensures
            match r {
                Some(i) => i < self.stores.len() && self.stores[i as int].path@ == path@
                    && self@.contains_key(path@) && self@[path@] == self.stores[i as int]@,
                None => !self@.contains_key(path@),
            },
    {
        let wanted = path.to_owned();
        let mut i: usize = 0;
        while i < self.stores.len()
            invariant
                self.wf(),
                i <= self.stores.len(),
                wanted@ == path@,
                forall|x: int| 0 <= x < i ==> self.stores[x].path@ != path@,
            decreases self.stores.len() - i,
        {
            if self.stores[i].path == wanted {
                proof {
                    let j = choose|j: int|
                        0 <= j < self.stores.len() && self.stores[j].path@ == path@;
                    assert(self.stores[i as int].path@ == path@);
                    if j < i {
                        assert(self.stores[j].path@ != self.stores[i as int].path@);
                    } else if i < j {
                        assert(self.stores[i as int].path@ != self.stores[j].path@);
                    }
                    assert(j == i);
                }
                return Some(i);
            }
            i += 1;
        }
        None
    }

    /// Whether a writable handle holds the lock of the database at `path`.
    /// Fails where no database lies at `path`.
    pub fn is_db_locked(&self, path: &str) -> (r: Result<bool, Error>)
        requires
            self.wf(),
        ensures
            match r {
                Ok(b) => self@.contains_key(path@) && b == self@[path@].locked,
                Err(e) => !self@.contains_key(path@) && e == Error::PathError,
            },
    {
        match self.find(path) {
            Some(i) => Ok(self.stores[i].locked),
            None => Err(Error::PathError),
        }
    }

    /// A copy of what the database at place `i` keeps.
    pub(crate) fn load(&self, i: usize) -> (r: Vec<FamilyData>)
        requires
            i < self.stores.len(),
        ensures
            data_views(r@) == self.stores[i as int]@.families,
    {
        let store = &self.stores[i];
        let mut r: Vec<FamilyData> = Vec::new();
        let mut k: usize = 0;
        while k < store.families.len()
            invariant
                k <= store.families.len(),
                r.len() == k,
                forall|x: int| 0 <= x < k ==> (#[trigger] r[x])@ == store.families[x]@,
            decreases store.families.len() - k,
        {
            r.push(store.families[k].duplicate());
            k += 1;
        }
        assert(data_views(r@) =~= store@.families);
        r
    }

    /// The sequence number of the last write and the number of the next
    /// column family of the database at place `i`.
    pub(crate) fn counters(&self, i: usize) -> (r: (u64, u64))
        requires
            i < self.stores.len(),
        ensures
            r.0 == self.stores[i as int]@.last_sequence,
            r.1 == self.stores[i as int]@.next_family_id,
    {
        (self.stores[i].last_sequence, self.stores[i].next_family_id)
    }

    /// Whether the database at place `i` is locked.
    pub(crate) fn locked(&self, i: usize) -> (r: bool)
        requires
            i < self.stores.len(),
        ensures
            r == self.stores[i as int]@.locked,
    {
        self.stores[i].locked
    }

    /// Puts `store` at `path`, in place of what was kept there, if anything.
    pub(crate) fn put(&mut self, path: &str, store: Store)
        requires
            old(self).wf(),
            store@.wf(),
            store.path@ == path@,
        ensures
            final(self).wf(),
            final(self)@ == old(self)@.insert(path@, store@),
    {
        let ghost sv = store@;
        match self.find(path) {
            Some(i) => {
                self.stores[i] = store;
                proof {
                    assert forall|p: Seq<char>| #[trigger]
                        self@.dom().contains(p) == old(self)@.insert(path@, sv).dom().contains(
                            p,
                        ) by {
                        if old(self)@.insert(path@, sv).dom().contains(p) {
                            if p == path@ {
                                assert(self.stores[i as int].path@ == p);
                            } else {
                                let j = choose|j: int|
                                    0 <= j < old(self).stores.len() && old(self).stores[j].path@
                                        == p;
                                assert(self.stores[j].path@ == p);
                            }
                        }
                        if self@.dom().contains(p) {
                            let j = choose|j: int|
                                0 <= j < self.stores.len() && self.stores[j].path@ == p;
                            if j != i {
                                assert(old(self).stores[j].path@ == p);
                            }
                        }
                    }
                    assert forall|p: Seq<char>| self@.dom().contains(p) implies #[trigger] self@[p]
                        == old(self)@.insert(path@, sv)[p] by {
                        let j = choose|j: int|
                            0 <= j < self.stores.len() && self.stores[j].path@ == p;
                        if j == i {
                        } else {
                            let k = choose|k: int|
                                0 <= k < old(self).stores.len() && old(self).stores[k].path@ == p;
                            assert(old(self).stores[j].path@ == p);
                            assert(k == j);
                        }
                    }
                    assert(self@ =~= old(self)@.insert(path@, sv));
                }
            },
            None => {
                self.stores.push(store);
                proof {
                    let n = old(self).stores.len() as int;
                    assert(self.stores[n].path@ == path@);
                    assert forall|p: Seq<char>| #[trigger]
                        self@.dom().contains(p) == old(self)@.insert(path@, sv).dom().contains(
                            p,
                        ) by {
                        if old(self)@.insert(path@, sv).dom().contains(p) {
                            if p == path@ {
                                assert(self.stores[n].path@ == p);
                            } else {
                                let j = choose|j: int|
                                    0 <= j < old(self).stores.len() && old(self).stores[j].path@
                                        == p;
                                assert(self.stores[j].path@ == p);
                            }
                        }
                        if self@.dom().contains(p) {
                            let j = choose|j: int|
                                0 <= j < self.stores.len() && self.stores[j].path@ == p;
                            if j != n {
                                assert(old(self).stores[j].path@ == p);
                            }
                        }
                    }
                    assert forall|p: Seq<char>| self@.dom().contains(p) implies #[trigger] self@[p]
                        == old(self)@.insert(path@, sv)[p] by {
                        let j = choose|j: int|
                            0 <= j < self.stores.len() && self.stores[j].path@ == p;
                        if j == n {
                        } else {
                            let k = choose|k: int|
                                0 <= k < old(self).stores.len() && old(self).stores[k].path@ == p;
                            assert(old(self).stores[j].path@ == p);
                            assert(k == j);
                        }
                    }
                    assert(self@ =~= old(self)@.insert(path@, sv));
                }
            },
        }
    }

    /// Sets the lock of the database at place `i`.
    pub(crate) fn set_locked(&mut self, i: usize, path: &str, locked: bool)
        requires
            old(self).wf(),
            i < old(self).stores.len(),
            old(self).stores[i as int].path@ == path@,
        ensures
            final(self).wf(),
            final(self)@ == old(self)@.insert(
                path@,
                StoreView { locked: locked, ..old(self)@[path@] },
            ),
    {
        proof {
            let j = choose|j: int| 0 <= j < self.stores.len() && self.stores[j].path@ == path@;
            assert(j == i);
        }
        let ghost before = self.stores[i as int]@;
        self.stores[i].locked = locked;
        proof {
            let sv = StoreView { locked: locked, ..before };
            assert(self.stores[i as int]@ == sv);
            assert forall|p: Seq<char>| #[trigger]
                self@.dom().contains(p) == old(self)@.insert(path@, sv).dom().contains(p) by {
                if old(self)@.insert(path@, sv).dom().contains(p) {
                    if p == path@ {
                        assert(self.stores[i as int].path@ == p);
                    } else {
                        let j = choose|j: int|
                            0 <= j < old(self).stores.len() && old(self).stores[j].path@ == p;
                        assert(self.stores[j].path@ == p);
                    }
                }
                if self@.dom().contains(p) {
                    let j = choose|j: int| 0 <= j < self.stores.len() && self.stores[j].path@ == p;
                    assert(old(self).stores[j].path@ == p);
                }
            }
            assert forall|p: Seq<char>| self@.dom().contains(p) implies #[trigger] self@[p] == old(self)@.insert(path@, sv)[p] by {
                let j = choose|j: int| 0 <= j < self.stores.len() && self.stores[j].path@ == p;
                let k = choose|k: int|
                    0 <= k < old(self).stores.len() && old(self).stores[k].path@ == p;
                assert(old(self).stores[j].path@ == p);
                assert(k == j);
            }
            assert(self@ =~= old(self)@.insert(path@, sv));
        }
    }
}

impl Default for Env {
    /// An environment without databases.
    fn default() -> (r: Env)
        ensures
            r.wf(),
            r@ == Map::<Seq<char>, StoreView>::empty(),
    {
        Env::new()
    }
}

} // verus!
