//! The content store: identifiers bound to the nodes they were computed from.
//!
//! Three namespaces: anonymous nodes, metadata nodes, and the pairs that
//! identify whole universe levels. A key, once bound, keeps its value: a
//! second insertion of the same node is a no-op, and an insertion of another
//! node under a bound key is refused.
use crate::universe::{AnonModel, MetaModel, UnivAnon, UnivAnonCid, UnivCid, UnivMeta, UnivMetaCid};
use vstd::prelude::*;

verus! {

/// Why a store operation failed.
#[derive(Clone, Copy, Debug, PartialEq, Eq)]
pub enum EnvError {
    /// A value has no canonical encoding. The nodes of this library all have
    /// one, so their operations never report it.
    Encoding,
    /// A key is already bound to a different value.
    Integrity,
}

/// `list` holds exactly the bindings of `m`, each key once.
spec fn anon_list_wf(list: Seq<(UnivAnonCid, UnivAnon)>, m: Map<Seq<u8>, AnonModel>) -> bool {
    &&& forall|i: int|
        0 <= i < list.len() ==> #[trigger] m.contains_key(list[i].0@) && m[list[i].0@]
            == list[i].1@
    &&& forall|k: Seq<u8>| #[trigger]
        m.contains_key(k) ==> exists|i: int| 0 <= i < list.len() && #[trigger] list[i].0@ == k
    &&& m.dom().finite()
    &&& m.dom().len() == list.len()
}

/// `list` holds exactly the bindings of `m`, each key once.
spec fn meta_list_wf(list: Seq<(UnivMetaCid, UnivMeta)>, m: Map<Seq<u8>, MetaModel>) -> bool {
    &&& forall|i: int|
        0 <= i < list.len() ==> #[trigger] m.contains_key(list[i].0@) && m[list[i].0@]
            == list[i].1@
    &&& forall|k: Seq<u8>| #[trigger]
        m.contains_key(k) ==> exists|i: int| 0 <= i < list.len() && #[trigger] list[i].0@ == k
    &&& m.dom().finite()
    &&& m.dom().len() == list.len()
}

/// `list` holds exactly the members of `s`, each once.
spec fn univ_list_wf(list: Seq<UnivCid>, s: Set<(Seq<u8>, Seq<u8>)>) -> bool {
    &&& forall|i: int| 0 <= i < list.len() ==> #[trigger] s.contains(list[i]@)
    &&& forall|k: (Seq<u8>, Seq<u8>)| #[trigger]
        s.contains(k) ==> exists|i: int| 0 <= i < list.len() && #[trigger] list[i]@ == k
    &&& s.finite()
    &&& s.len() == list.len()
}

/// The content store.
pub struct Env {
    anon: Vec<(UnivAnonCid, UnivAnon)>,
    meta: Vec<(UnivMetaCid, UnivMeta)>,
    univs: Vec<UnivCid>,
    anon_map: Ghost<Map<Seq<u8>, AnonModel>>,
    meta_map: Ghost<Map<Seq<u8>, MetaModel>>,
    univ_set: Ghost<Set<(Seq<u8>, Seq<u8>)>>,
}

impl Env {
    /// The anonymous nodes, by identifier.
    pub closed spec fn anons(&self) -> Map<Seq<u8>, AnonModel> {
        self.anon_map@
    }

    /// The metadata nodes, by identifier.
    pub closed spec fn metas(&self) -> Map<Seq<u8>, MetaModel> {
        self.meta_map@
    }

    /// The identifiers of whole universe levels that were stored.
    pub closed spec fn composites(&self) -> Set<(Seq<u8>, Seq<u8>)> {
        self.univ_set@
    }

    /// The lists hold exactly the bindings of the maps, each key once.
    pub closed spec fn wf(&self) -> bool {
        &&& anon_list_wf(self.anon@, self.anon_map@)
        &&& meta_list_wf(self.meta@, self.meta_map@)
        &&& univ_list_wf(self.univs@, self.univ_set@)
    }

    /// An empty store.
    pub fn new() -> (r: Env)
        ensures
            r.wf(),
            r.anons() == Map::<Seq<u8>, AnonModel>::empty(),
            r.metas() == Map::<Seq<u8>, MetaModel>::empty(),
            r.composites() == Set::<(Seq<u8>, Seq<u8>)>::empty(),
    {
        Env {
            anon: Vec::new(),
            meta: Vec::new(),
            univs: Vec::new(),
            anon_map: Ghost(Map::empty()),
            meta_map: Ghost(Map::empty()),
            univ_set: Ghost(Set::empty()),
        }
    }

    fn anon_index(&self, cid: &UnivAnonCid) -> (r: Option<usize>)
        requires
            self.wf(),
        ensures
            match r {
                Some(i) => i < self.anon@.len() && self.anon@[i as int].0@ == cid@,
                None => !self.anons().contains_key(cid@),
            },
    {
        let mut i: usize = 0;
        while i < self.anon.len()
            invariant
                i <= self.anon@.len(),
                forall|j: int| 0 <= j < i ==> self.anon@[j].0@ != cid@,
            decreases self.anon@.len() - i,
        {
            if self.anon[i].0.same(cid) {
                return Some(i);
            }
            i += 1;
        }
        None
    }

    fn meta_index(&self, cid: &UnivMetaCid) -> (r: Option<usize>)
        requires
            self.wf(),
        ensures
            match r {
                Some(i) => i < self.meta@.len() && self.meta@[i as int].0@ == cid@,
                None => !self.metas().contains_key(cid@),
            },
    {
        let mut i: usize = 0;
        while i < self.meta.len()
            invariant
                i <= self.meta@.len(),
                forall|j: int| 0 <= j < i ==> self.meta@[j].0@ != cid@,
            decreases self.meta@.len() - i,
        {
            if self.meta[i].0.same(cid) {
                return Some(i);
            }
            i += 1;
        }
        None
    }

    /// The anonymous node bound to `cid`, if any.
    pub fn get_anon(&self, cid: &UnivAnonCid) -> (r: Option<UnivAnon>)
        requires
            self.wf(),
        ensures
            r is Some == self.anons().contains_key(cid@),
            r is Some ==> r->Some_0@ == self.anons()[cid@],
    {
        match self.anon_index(cid) {
            Some(i) => {
                assert(self.anon_map@.contains_key(self.anon@[i as int].0@));
                Some(self.anon[i].1.duplicate())
            },
            None => None,
        }
    }

    /// The metadata node bound to `cid`, if any.
    pub fn get_meta(&self, cid: &UnivMetaCid) -> (r: Option<UnivMeta>)
        requires
            self.wf(),
        ensures
            r is Some == self.metas().contains_key(cid@),
            r is Some ==> r->Some_0@ == self.metas()[cid@],
    {
        match self.meta_index(cid) {
            Some(i) => {
                assert(self.meta_map@.contains_key(self.meta@[i as int].0@));
                Some(self.meta[i].1.duplicate())
            },
            None => None,
        }
    }

    /// Binds `cid` to `value` if it is unbound; does nothing if it is bound to
    /// an equal value; fails with `Integrity`, changing nothing, if it is bound
    /// to another value.
    pub fn insert_anon(&mut self, cid: UnivAnonCid, value: UnivAnon) -> (r: Result<(), EnvError>)
        requires
            old(self).wf(),
        ensures
            final(self).wf(),
            final(self).metas() == old(self).metas(),
            final(self).composites() == old(self).composites(),
            if old(self).anons().contains_key(cid@) && old(self).anons()[cid@] != value@ {
                r == Err::<(), EnvError>(EnvError::Integrity) && final(self).anons() == old(self).anons()
            } else {
                r is Ok && final(self).anons() == old(self).anons().insert(cid@, value@)
            },
    {
        match self.anon_index(&cid) {
            Some(i) => {
                assert(self.anon_map@.contains_key(self.anon@[i as int].0@));
                if self.anon[i].1.same(&value) {
                    assert(self.anons().insert(cid@, value@) =~= self.anons());
                    Ok(())
                } else {
                    Err(EnvError::Integrity)
                }
            },
            None => {
                let ghost k = cid@;
                let ghost v = value@;
                let ghost old_list = self.anon@;
                let ghost old_map = self.anon_map@;
                self.anon.push((cid, value));
                self.anon_map = Ghost(self.anon_map@.insert(k, v));
                assert(self.anon_map@.dom() =~= old_map.dom().insert(k));
                assert(old_map.dom().insert(k).len() == old_map.dom().len() + 1);
                assert forall|i: int| 0 <= i < self.anon@.len() implies #[trigger] self.anon_map@.contains_key(
                    self.anon@[i].0@,
                ) && self.anon_map@[self.anon@[i].0@] == self.anon@[i].1@ by {
                    if i < old_list.len() {
                        assert(self.anon@[i] == old_list[i]);
                        assert(old_list[i].0@ != k);
                    }
                }
                assert forall|kk: Seq<u8>| #[trigger]
                    self.anon_map@.contains_key(kk) implies exists|i: int|
                    0 <= i < self.anon@.len() && #[trigger] self.anon@[i].0@ == kk by {
                    if kk == k {
                        assert(self.anon@[old_list.len() as int].0@ == kk);
                    } else {
                        let i = choose|i: int| 0 <= i < old_list.len() && #[trigger] old_list[i].0@ == kk;
                        assert(self.anon@[i] == old_list[i]);
                    }
                }
                Ok(())
            },
        }
    }

    /// Binds `cid` to `value` if it is unbound; does nothing if it is bound to
    /// an equal value; fails with `Integrity`, changing nothing, if it is bound
    /// to another value.
    pub fn insert_meta(&mut self, cid: UnivMetaCid, value: UnivMeta) -> (r: Result<(), EnvError>)
        requires
            old(self).wf(),
        ensures
            final(self).wf(),
            final(self).anons() == old(self).anons(),
            final(self).composites() == old(self).composites(),
            if old(self).metas().contains_key(cid@) && old(self).metas()[cid@] != value@ {
                r == Err::<(), EnvError>(EnvError::Integrity) && final(self).metas() == old(self).metas()
            } else {
                r is Ok && final(self).metas() == old(self).metas().insert(cid@, value@)
            },
    {
        match self.meta_index(&cid) {
            Some(i) => {
                assert(self.meta_map@.contains_key(self.meta@[i as int].0@));
                if self.meta[i].1.same(&value) {
                    assert(self.metas().insert(cid@, value@) =~= self.metas());
                    Ok(())
                } else {
                    Err(EnvError::Integrity)
                }
            },
            None => {
                let ghost k = cid@;
                let ghost v = value@;
                let ghost old_list = self.meta@;
                let ghost old_map = self.meta_map@;
                self.meta.push((cid, value));
                self.meta_map = Ghost(self.meta_map@.insert(k, v));
                assert(self.meta_map@.dom() =~= old_map.dom().insert(k));
                assert(old_map.dom().insert(k).len() == old_map.dom().len() + 1);
                assert forall|i: int| 0 <= i < self.meta@.len() implies #[trigger] self.meta_map@.contains_key(
                    self.meta@[i].0@,
                ) && self.meta_map@[self.meta@[i].0@] == self.meta@[i].1@ by {
                    if i < old_list.len() {
                        assert(self.meta@[i] == old_list[i]);
                        assert(old_list[i].0@ != k);
                    }
                }
                assert forall|kk: Seq<u8>| #[trigger]
                    self.meta_map@.contains_key(kk) implies exists|i: int|
                    0 <= i < self.meta@.len() && #[trigger] self.meta@[i].0@ == kk by {
                    if kk == k {
                        assert(self.meta@[old_list.len() as int].0@ == kk);
                    } else {
                        let i = choose|i: int| 0 <= i < old_list.len() && #[trigger] old_list[i].0@ == kk;
                        assert(self.meta@[i] == old_list[i]);
                    }
                }
                Ok(())
            },
        }
    }

    /// Records the identifier of a whole universe level; recording it again
    /// changes nothing.
    pub fn insert_univ(&mut self, cid: UnivCid)
        requires
            old(self).wf(),
        ensures
            final(self).wf(),
            final(self).anons() == old(self).anons(),
            final(self).metas() == old(self).metas(),
            final(self).composites() == old(self).composites().insert(cid@),
    {
        let mut i: usize = 0;
        while i < self.univs.len()
            invariant
                self.wf(),
                i <= self.univs@.len(),
                forall|j: int| 0 <= j < i ==> self.univs@[j]@ != cid@,
            decreases self.univs@.len() - i,
        {
            if self.univs[i].anon.same(&cid.anon) && self.univs[i].meta.same(&cid.meta) {
                assert(self.univ_set@.contains(self.univs@[i as int]@));
                assert(self.composites().insert(cid@) =~= self.composites());
                return;
            }
            i += 1;
        }
        let ghost k = cid@;
        let ghost old_list = self.univs@;
        assert(!self.univ_set@.contains(k)) by {
            if self.univ_set@.contains(k) {
                let j = choose|j: int| 0 <= j < old_list.len() && #[trigger] old_list[j]@ == k;
                assert(old_list[j]@ != cid@);
            }
        }
        let ghost old_set = self.univ_set@;
        self.univs.push(cid);
        self.univ_set = Ghost(self.univ_set@.insert(k));
        assert(old_set.insert(k).len() == old_set.len() + 1);
        assert forall|i: int| 0 <= i < self.univs@.len() implies #[trigger] self.univ_set@.contains(
            self.univs@[i]@,
        ) by {
            if i < old_list.len() {
                assert(self.univs@[i] == old_list[i]);
            }
        }
        assert forall|kk: (Seq<u8>, Seq<u8>)| #[trigger]
            self.univ_set@.contains(kk) implies exists|i: int|
            0 <= i < self.univs@.len() && #[trigger] self.univs@[i]@ == kk by {
            if kk == k {
                assert(self.univs@[old_list.len() as int]@ == kk);
            } else {
                let i = choose|i: int| 0 <= i < old_list.len() && #[trigger] old_list[i]@ == kk;
                assert(self.univs@[i] == old_list[i]);
            }
        }
    }

    /// The number of anonymous nodes.
    pub fn anon_count(&self) -> (r: usize)
        requires
            self.wf(),
        ensures
            r == self.anons().len(),
    {
        self.anon.len()
    }

    /// The number of metadata nodes.
    pub fn meta_count(&self) -> (r: usize)
        requires
            self.wf(),
        ensures
            r == self.metas().len(),
    {
        self.meta.len()
    }

    /// The number of whole universe levels recorded.
    pub fn univ_count(&self) -> (r: usize)
        requires
            self.wf(),
        ensures
            r == self.composites().len(),
    {
        self.univs.len()
    }
}

} // verus!
