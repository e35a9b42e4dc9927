//! The identity registry: the stable `NoteId` of each note key.
use vstd::prelude::*;
use vstd::hash_map::StringHashMap;
use vstd::std_specs::hash::spec_keys_iter;
use vstd::std_specs::iter::IteratorSpec;
use std::collections::HashMap;
use crate::model::{NoteId, NoteKey, opt_view};

verus! {

broadcast use vstd::std_specs::hash::group_hash_axioms;

/// The identifiers `0..=n`.
pub open spec fn ids_up_to(n: u128) -> Set<u128> {
    Set::new(|j: u128| j <= n)
}

proof fn lemma_ids_up_to(n: u128)
    ensures
        ids_up_to(n).finite(),
        ids_up_to(n).len() == n + 1,
    decreases n,
{
    if n == 0 {
        assert(ids_up_to(0) =~= Set::<u128>::empty().insert(0));
    } else {
        lemma_ids_up_to((n - 1) as u128);
        assert(ids_up_to(n) =~= ids_up_to((n - 1) as u128).insert(n));
    }
}

/// No two of `entries` share a key or an identifier.
pub open spec fn entries_distinct(entries: Seq<(String, NoteId)>) -> bool {
    forall|i: int, j: int|
        #![trigger entries[i], entries[j]]
        0 <= i < j < entries.len() ==> entries[i].0@ != entries[j].0@ && entries[i].1.0
            != entries[j].1.0
}

/// Maps each note key to its identifier, and back.
///
/// A key keeps its identifier through renames (`rebind`); a new key gets an
/// identifier that no key ever had in this registry.
pub struct IdentityRegistry {
    key_to_id: StringHashMap<NoteId>,
    id_to_key: HashMap<u128, String>,
}

impl IdentityRegistry {
    /// The identifier of each key.
    pub closed spec fn keys(&self) -> Map<Seq<char>, NoteId> {
        self.key_to_id@
    }

    /// The key recorded for each identifier.
    pub closed spec fn ids(&self) -> Map<u128, Seq<char>> {
        self.id_to_key@.map_values(|s: String| s@)
    }

    /// Each key's identifier is recorded with that key, so no two keys share
    /// an identifier.
    pub closed spec fn wf(&self) -> bool {
        &&& self.id_to_key@.dom().finite()
        &&& forall|k: Seq<char>|
            #![trigger self.key_to_id@[k]]
            self.key_to_id@.contains_key(k) ==> self.id_to_key@.contains_key(
                self.key_to_id@[k].0,
            ) && self.id_to_key@[self.key_to_id@[k].0]@ == k
    }

    /// An empty registry.
    pub fn new() -> (r: Self)
        ensures
            r.wf(),
            r.keys() == Map::<Seq<char>, NoteId>::empty(),
            r.ids() == Map::<u128, Seq<char>>::empty(),
    {
        let r = IdentityRegistry { key_to_id: StringHashMap::new(), id_to_key: HashMap::new() };
        assert(r.ids() =~= Map::<u128, Seq<char>>::empty());
        r
    }

    /// An identifier not yet recorded: a random one, else the least free
    /// value.
    fn fresh_id(&self) -> (r: u128)
        requires
            self.wf(),
        ensures
            !self.ids().contains_key(r),
    {
        let candidate = NoteId::new().0;
        if !self.id_to_key.contains_key(&candidate) {
            return candidate;
        }
        let n = self.id_to_key.len();
        let bound: u128 = n as u128;
        let mut c: u128 = 0;
        while c <= bound
            invariant
                bound == self.id_to_key@.len(),
                bound <= usize::MAX,
                c <= bound + 1,
                self.id_to_key@.dom().finite(),
                forall|j: u128| j < c ==> self.id_to_key@.contains_key(j),
            decreases bound + 1 - c,
        {
            if !self.id_to_key.contains_key(&c) {
                return c;
            }
            c = c + 1;
        }
        proof {
            lemma_ids_up_to(bound);
            assert(ids_up_to(bound).subset_of(self.id_to_key@.dom()));
            vstd::set_lib::lemma_len_subset(ids_up_to(bound), self.id_to_key@.dom());
        }
        0
    }

    /// The identifier of `key`, created when the key has none.
    pub fn get_or_create(&mut self, key: &NoteKey) -> (r: NoteId)
        requires
            old(self).wf(),
        ensures
            final(self).wf(),
            old(self).keys().contains_key(key@) ==> {
                &&& r == old(self).keys()[key@]
                &&& final(self).keys() == old(self).keys()
                &&& final(self).ids() == old(self).ids()
            },
            !old(self).keys().contains_key(key@) ==> {
                &&& !old(self).ids().contains_key(r.0)
                &&& final(self).keys() == old(self).keys().insert(key@, r)
                &&& final(self).ids() == old(self).ids().insert(r.0, key@)
            },
    {
        if let Some(id) = self.key_to_id.get(key.as_str()) {
            return *id;
        }
        let id = NoteId(self.fresh_id());
        let ghost old_ids = self.id_to_key@;
        self.key_to_id.insert(key.clone(), id);
        self.id_to_key.insert(id.0, key.clone());
        proof {
            assert(self.ids() =~= old(self).ids().insert(id.0, key@));
            assert forall|k: Seq<char>| #[trigger]
                self.key_to_id@.contains_key(k) implies self.id_to_key@.contains_key(
                self.key_to_id@[k].0,
            ) && self.id_to_key@[self.key_to_id@[k].0]@ == k by {
                if k != key@ {
                    assert(old(self).key_to_id@.contains_key(k));
                    assert(old_ids.contains_key(old(self).key_to_id@[k].0));
                }
            }
        }
        id
    }

    /// Gives the identifier of `old_key` to `new_key`, and returns it; `None`,
    /// with nothing changed, when `old_key` has none.
    pub fn rebind(&mut self, old_key: &NoteKey, new_key: &NoteKey) -> (r: Option<NoteId>)
        requires
            old(self).wf(),
        ensures
            final(self).wf(),
            match r {
                Some(id) => {
                    &&& old(self).keys().contains_key(old_key@)
                    &&& id == old(self).keys()[old_key@]
                    &&& final(self).keys() == old(self).keys().remove(old_key@).insert(new_key@, id)
                    &&& final(self).ids() == old(self).ids().insert(id.0, new_key@)
                },
                None => {
                    &&& !old(self).keys().contains_key(old_key@)
                    &&& final(self).keys() == old(self).keys()
                    &&& final(self).ids() == old(self).ids()
                },
            },
    {
        let id = match self.key_to_id.get(old_key.as_str()) {
            Some(id) => *id,
            None => return None,
        };
        let ghost k0 = self.key_to_id@;
        let ghost i0 = self.id_to_key@;
        self.key_to_id.remove(old_key.as_str());
        self.key_to_id.insert(new_key.clone(), id);
        self.id_to_key.insert(id.0, new_key.clone());
        proof {
            assert(self.key_to_id@ =~= k0.remove(old_key@).insert(new_key@, id));
            assert(self.ids() =~= old(self).ids().insert(id.0, new_key@));
            assert forall|k: Seq<char>| #[trigger]
                self.key_to_id@.contains_key(k) implies self.id_to_key@.contains_key(
                self.key_to_id@[k].0,
            ) && self.id_to_key@[self.key_to_id@[k].0]@ == k by {
                if k != new_key@ {
                    assert(k0.contains_key(k) && k != old_key@);
                    assert(i0.contains_key(k0[k].0) && i0[k0[k].0]@ == k);
                    if k0[k].0 == id.0 {
                        assert(i0[k0[old_key@].0]@ == old_key@);
                    }
                }
            }
        }
        Some(id)
    }


    /// The identifier `n` is recorded with a key that is still bound to it.
    spec fn is_live(&self, n: u128) -> bool {
        &&& self.id_to_key@.contains_key(n)
        &&& self.key_to_id@.contains_key(self.id_to_key@[n]@)
        &&& self.key_to_id@[self.id_to_key@[n]@].0 == n
    }

    /// The recorded identifiers, each once.
    fn recorded_ids(&self) -> (r: Vec<u128>)
        ensures
            r@.no_duplicates(),
            forall|n: u128| r@.contains(n) <==> self.id_to_key@.contains_key(n),
    {
        let mut r: Vec<u128> = Vec::new();
        let ghost s = spec_keys_iter(&self.id_to_key).remaining();
        for k in it: self.id_to_key.keys()
            invariant
                it.seq() == s,
                r@ == s.take(it.index()).map_values(|k: &u128| *k),
        {
            proof {
                assert(s.take(it.index() + 1) =~= s.take(it.index()).push(k));
            }
            r.push(*k);
        }
        proof {
            assert(r@ =~= s.map_values(|k: &u128| *k));
            assert forall|n: u128| r@.contains(n) <==> self.id_to_key@.contains_key(n) by {
                if self.id_to_key@.contains_key(n) {
                    assert(s.unref().to_set().contains(n));
                    let j = choose|j: int| 0 <= j < s.len() && s.unref()[j] == n;
                    assert(r@[j] == n);
                }
                if r@.contains(n) {
                    let j = choose|j: int| 0 <= j < r@.len() && r@[j] == n;
                    assert(s.unref()[j] == n);
                    assert(s.unref().to_set().contains(n));
                }
            }
            assert forall|a: int, b: int| 0 <= a < b < r@.len() implies r@[a] != r@[b] by {
                assert(s.unref()[a] != s.unref()[b]);
            }
        }
        r
    }

    proof fn lemma_entries_complete(
        &self,
        ids: Seq<u128>,
        r: Seq<(NoteKey, NoteId)>,
        pos: Seq<int>,
        at: Map<u128, int>,
    )
        requires
            self.wf(),
            ids.no_duplicates(),
            forall|n: u128| ids.contains(n) <==> self.id_to_key@.contains_key(n),
            pos.len() == r.len(),
            forall|a: int|
                0 <= a < r.len() ==> 0 <= #[trigger] pos[a] < ids.len() && ids[pos[a]] == r[a].1.0,
            forall|a: int, b: int| 0 <= a < b < r.len() ==> #[trigger] pos[a] < #[trigger] pos[b],
            forall|a: int|
                0 <= a < r.len() ==> self.key_to_id@.contains_key(#[trigger] r[a].0@)
                    && self.key_to_id@[r[a].0@] == r[a].1,
            forall|j: int|
                0 <= j < ids.len() && self.is_live(#[trigger] ids[j]) ==> at.contains_key(ids[j])
                    && 0 <= at[ids[j]] < r.len() && r[at[ids[j]]].1.0 == ids[j],
        ensures
            entries_distinct(r),
            forall|k: Seq<char>|
                self.keys().contains_key(k) <==> exists|i: int|
                    0 <= i < r.len() && #[trigger] r[i].0@ == k,
            forall|i: int| 0 <= i < r.len() ==> self.keys()[#[trigger] r[i].0@] == r[i].1,
    {
        assert forall|a: int, b: int|
            0 <= a < b < r.len() implies #[trigger] r[a].0@ != #[trigger] r[b].0@ && r[a].1.0
            != r[b].1.0 by {
            assert(pos[a] < pos[b]);
            assert(ids[pos[a]] != ids[pos[b]]);
        }
        assert forall|k: Seq<char>| self.keys().contains_key(k) implies exists|i: int|
            0 <= i < r.len() && #[trigger] r[i].0@ == k by {
            let n = self.key_to_id@[k].0;
            assert(self.id_to_key@.contains_key(n));
            assert(self.is_live(n));
            assert(ids.contains(n));
            let j = choose|j: int| 0 <= j < ids.len() && ids[j] == n;
            assert(self.is_live(ids[j]));
            let a = at[n];
            assert(self.key_to_id@[r[a].0@] == r[a].1);
            assert(self.id_to_key@[r[a].1.0]@ == r[a].0@);
        }
    }

    /// The binding of every key, each once, in no particular order.
    pub fn entries(&self) -> (r: Vec<(NoteKey, NoteId)>)
        requires
            self.wf(),
        ensures
            entries_distinct(r@),
            forall|k: Seq<char>|
                self.keys().contains_key(k) <==> exists|i: int|
                    0 <= i < r@.len() && #[trigger] r@[i].0@ == k,
            forall|i: int| 0 <= i < r@.len() ==> self.keys()[#[trigger] r@[i].0@] == r@[i].1,
    {
        let ids = self.recorded_ids();
        let mut r: Vec<(NoteKey, NoteId)> = Vec::new();
        let ghost mut pos: Seq<int> = Seq::empty();
        let ghost mut at: Map<u128, int> = Map::empty();
        let mut i: usize = 0;
        while i < ids.len()
            invariant
                self.wf(),
                i <= ids@.len(),
                ids@.no_duplicates(),
                forall|n: u128| ids@.contains(n) <==> self.id_to_key@.contains_key(n),
                pos.len() == r@.len(),
                forall|a: int|
                    0 <= a < r@.len() ==> 0 <= #[trigger] pos[a] < i && ids@[pos[a]] == r@[a].1.0,
                forall|a: int, b: int| 0 <= a < b < r@.len() ==> #[trigger] pos[a] < #[trigger] pos[b],
                forall|a: int|
                    0 <= a < r@.len() ==> self.key_to_id@.contains_key(#[trigger] r@[a].0@)
                        && self.key_to_id@[r@[a].0@] == r@[a].1,
                forall|j: int|
                    0 <= j < i && self.is_live(#[trigger] ids@[j]) ==> at.contains_key(ids@[j])
                        && 0 <= at[ids@[j]] < r@.len() && r@[at[ids@[j]]].1.0 == ids@[j],
            decreases ids@.len() - i,
        {
            let n = ids[i];
            assert(ids@.contains(n));
            let key = self.id_to_key.get(&n).unwrap();
            let live = match self.key_to_id.get(key.as_str()) {
                Some(id) => id.0 == n,
                None => false,
            };
            if live {
                proof {
                    pos = pos.push(i as int);
                    at = at.insert(n, r@.len() as int);
                }
                r.push((key.clone(), NoteId(n)));
            }
            i = i + 1;
        }
        proof {
            self.lemma_entries_complete(ids@, r@, pos, at);
        }
        r
    }

    /// A registry holding exactly the bindings `entries`; `None` when two of
    /// them share a key or an identifier.
    pub fn from_entries(entries: &Vec<(NoteKey, NoteId)>) -> (r: Option<Self>)
        ensures
            r is Some <==> entries_distinct(entries@),
            r matches Some(reg) ==> {
                &&& reg.wf()
                &&& forall|k: Seq<char>|
                    reg.keys().contains_key(k) <==> exists|i: int|
                        0 <= i < entries@.len() && #[trigger] entries@[i].0@ == k
                &&& forall|i: int|
                    0 <= i < entries@.len() ==> reg.keys()[#[trigger] entries@[i].0@]
                        == entries@[i].1
                &&& forall|n: u128|
                    reg.ids().contains_key(n) <==> exists|i: int|
                        0 <= i < entries@.len() && #[trigger] entries@[i].1.0 == n
            },
    {
        let mut reg = IdentityRegistry { key_to_id: StringHashMap::new(), id_to_key: HashMap::new() };
        let mut i: usize = 0;
        while i < entries.len()
            invariant
                i <= entries@.len(),
                reg.wf(),
                forall|a: int, b: int|
                    0 <= a < b < i ==> #[trigger] entries@[a].0@ != #[trigger] entries@[b].0@
                        && entries@[a].1.0 != entries@[b].1.0,
                forall|k: Seq<char>|
                    reg.key_to_id@.contains_key(k) <==> exists|j: int|
                        0 <= j < i && #[trigger] entries@[j].0@ == k,
                forall|j: int| 0 <= j < i ==> reg.key_to_id@[#[trigger] entries@[j].0@] == entries@[j].1,
                forall|n: u128|
                    reg.id_to_key@.contains_key(n) <==> exists|j: int|
                        0 <= j < i && #[trigger] entries@[j].1.0 == n,
            decreases entries@.len() - i,
        {
            let key = &entries[i].0;
            let id = entries[i].1;
            if reg.key_to_id.contains_key(key.as_str()) {
                proof {
                    let j = choose|j: int| 0 <= j < i && #[trigger] entries@[j].0@ == key@;
                    assert(!(entries@[j].0@ != entries@[i as int].0@ && entries@[j].1.0
                        != entries@[i as int].1.0));
                }
                return None;
            }
            if reg.id_to_key.contains_key(&id.0) {
                proof {
                    let j = choose|j: int| 0 <= j < i && #[trigger] entries@[j].1.0 == id.0;
                    assert(entries@[j].1.0 == entries@[i as int].1.0);
                }
                return None;
            }
            let ghost k0 = reg.key_to_id@;
            let ghost i0 = reg.id_to_key@;
            reg.key_to_id.insert(key.clone(), id);
            reg.id_to_key.insert(id.0, key.clone());
            proof {
                assert forall|k: Seq<char>| #[trigger]
                    reg.key_to_id@.contains_key(k) implies reg.id_to_key@.contains_key(
                    reg.key_to_id@[k].0,
                ) && reg.id_to_key@[reg.key_to_id@[k].0]@ == k by {
                    if k != key@ {
                        assert(k0.contains_key(k));
                        assert(i0.contains_key(k0[k].0));
                    }
                }
                assert forall|k: Seq<char>|
                    reg.key_to_id@.contains_key(k) <==> exists|j: int|
                        0 <= j < i + 1 && #[trigger] entries@[j].0@ == k by {
                    if k == key@ {
                        assert(entries@[i as int].0@ == k);
                    }
                }
                assert forall|n: u128|
                    reg.id_to_key@.contains_key(n) <==> exists|j: int|
                        0 <= j < i + 1 && #[trigger] entries@[j].1.0 == n by {
                    if n == id.0 {
                        assert(entries@[i as int].1.0 == n);
                    }
                }
                assert forall|j: int| 0 <= j < i + 1 implies reg.key_to_id@[#[trigger] entries@[j].0@]
                    == entries@[j].1 by {
                    if j < i {
                        assert(entries@[j].0@ != entries@[i as int].0@);
                    }
                }
            }
            i = i + 1;
        }
        Some(reg)
    }

    /// The identifier of `key`, if any.
    pub fn lookup(&self, key: &NoteKey) -> (r: Option<NoteId>)
        ensures
            r == (if self.keys().contains_key(key@) {
                Some(self.keys()[key@])
            } else {
                None
            }),
    {
        match self.key_to_id.get(key.as_str()) {
            Some(id) => Some(*id),
            None => None,
        }
    }

    /// The key recorded for `id`, if any.
    pub fn key_of(&self, id: &NoteId) -> (r: Option<NoteKey>)
        ensures
            opt_view(r) == (if self.ids().contains_key(id.0) {
                Some(self.ids()[id.0])
            } else {
                None
            }),
    {
        match self.id_to_key.get(&id.0) {
            Some(k) => Some(k.clone()),
            None => None,
        }
    }
}

impl Default for IdentityRegistry {
    fn default() -> (r: Self)
        ensures
            r.wf(),
            r.keys() == Map::<Seq<char>, NoteId>::empty(),
            r.ids() == Map::<u128, Seq<char>>::empty(),
    {
        Self::new()
    }
}

/// A key's identifier leads back to the key: `key_of(lookup(k)) == k`.
pub proof fn lemma_key_of_lookup(reg: &IdentityRegistry, k: Seq<char>)
    requires
        reg.wf(),
        reg.keys().contains_key(k),
    ensures
        reg.ids().contains_key(reg.keys()[k].0),
        reg.ids()[reg.keys()[k].0] == k,
{
}

/// Two keys never share an identifier.
pub proof fn lemma_ids_distinct(reg: &IdentityRegistry, k1: Seq<char>, k2: Seq<char>)
    requires
        reg.wf(),
        reg.keys().contains_key(k1),
        reg.keys().contains_key(k2),
        k1 != k2,
    ensures
        reg.keys()[k1] != reg.keys()[k2],
{
    lemma_key_of_lookup(reg, k1);
    lemma_key_of_lookup(reg, k2);
}

} // verus!
