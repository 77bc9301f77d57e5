//! The state of keys in a key registry, and the requests that change it.

use vstd::prelude::*;

verus! {

/// What a key registry knows of a key at some time. `A` is the record that
/// proves it.
pub enum KeyState<A> {
    /// The key was never registered.
    NotFound,
    /// The key was registered and has been revoked or replaced since.
    Invalidated(A),
    /// The key is registered and in force.
    Valid(A),
}

impl<A> KeyState<A> {
    /// Whether the key is registered and in force.
    pub fn is_valid(&self) -> (r: bool)
        ensures
            r == (self is Valid),
    {
        match self {
            KeyState::Valid(_) => true,
            _ => false,
        }
    }
}

/// A request to change the keys of a registry. A key named as old is
/// destroyed, and a key named as new is registered; with both, the new key takes
/// the place of the old one in one step.
pub struct KeyMutation<K> {
    pub old_key: Option<K>,
    pub new_key: Option<K>,
}

/// What a [`KeyMutation`] does.
pub enum MutationKind {
    /// No key is named: nothing happens.
    Nothing,
    /// A new key is registered.
    Register,
    /// An old key is destroyed, and nothing takes its place.
    Remove,
    /// A new key takes the place of an old one.
    Update,
}

impl<K> KeyMutation<K> {
    /// The request that registers the newly made `key`.
    pub fn register_key(key: K) -> (r: Self)
        ensures
            r.old_key is None,
            r.new_key == Some(key),
    {
        KeyMutation { old_key: None, new_key: Some(key) }
    }

    /// The request that puts `new_key` in the place of `old_key`.
    pub fn update_key(old_key: K, new_key: K) -> (r: Self)
        ensures
            r.old_key == Some(old_key),
            r.new_key == Some(new_key),
    {
        KeyMutation { old_key: Some(old_key), new_key: Some(new_key) }
    }

    /// The request that destroys `key` and ends its line.
    pub fn remove_key(key: K) -> (r: Self)
        ensures
            r.old_key == Some(key),
            r.new_key is None,
    {
        KeyMutation { old_key: Some(key), new_key: None }
    }

    /// What the request does.
    pub fn kind(&self) -> (r: MutationKind)
        ensures
            r is Nothing <==> self.old_key is None && self.new_key is None,
            r is Register <==> self.old_key is None && self.new_key is Some,
            r is Remove <==> self.old_key is Some && self.new_key is None,
            r is Update <==> self.old_key is Some && self.new_key is Some,
    {
        match (&self.old_key, &self.new_key) {
            (None, None) => MutationKind::Nothing,
            (None, Some(_)) => MutationKind::Register,
            (Some(_), None) => MutationKind::Remove,
            (Some(_), Some(_)) => MutationKind::Update,
        }
    }
}

/// The key registries that are installed, each for the network whose hash
/// it is kept under. `C` is the handle to one registry.
pub struct DpkiService<C> {
    cells: Vec<(Vec<u8>, C)>,
}

impl<C> View for DpkiService<C> {
    type V = Map<Seq<u8>, C>;

    closed spec fn view(&self) -> Map<Seq<u8>, C> {
        Map::new(
            |hash: Seq<u8>| self.hashes().contains(hash),
            |hash: Seq<u8>| self.cells[self.hashes().index_of(hash)].1,
        )
    }
}

impl<C> DpkiService<C> {
    /// The hashes that registries are kept under.
    pub closed spec fn hashes(&self) -> Seq<Seq<u8>> {
        Seq::new(self.cells.len() as nat, |i: int| self.cells[i].0@)
    }

    /// No hash is held twice.
    pub closed spec fn wf(&self) -> bool {
        self.hashes().no_duplicates()
    }

    /// No registries.
    pub fn new() -> (r: Self)
        ensures
            r.wf(),
            r@ == Map::<Seq<u8>, C>::empty(),
    {
        let r = DpkiService { cells: Vec::new() };
        assert(r@ =~= Map::<Seq<u8>, C>::empty());
        r
    }

    /// The place of `dna_hash` among the hashes, if it is there.
    fn find(&self, dna_hash: &[u8]) -> (r: Option<usize>)
        requires
            self.wf(),
        ensures
            match r {
                Some(i) => i < self.cells.len() && self.hashes().contains(dna_hash@) && i
                    == self.hashes().index_of(dna_hash@),
                None => !self.hashes().contains(dna_hash@),
            },
    {
        let mut i: usize = 0;
        while i < self.cells.len()
            invariant
                self.wf(),
                i <= self.cells.len(),
                forall|j: int| 0 <= j < i ==> self.hashes()[j] != dna_hash@,
            decreases self.cells.len() - i,
        {
            if same_bytes(self.cells[i].0.as_slice(), dna_hash) {
                proof {
                    assert(self.hashes()[i as int] == dna_hash@);
                    let at = self.hashes().index_of(dna_hash@);
                    assert(self.hashes()[at] == dna_hash@);
                }
                return Some(i);
            }
            i = i + 1;
        }
        None
    }

    /// Keeps `cell` under `dna_hash`, in the place of whatever was kept
    /// there.
    pub fn insert(&mut self, dna_hash: Vec<u8>, cell: C)
        requires
            old(self).wf(),
        ensures
            final(self).wf(),
            final(self)@ == old(self)@.insert(dna_hash@, cell),
    {
        let ghost hash = dna_hash@;
        let ghost before = self.hashes();
        match self.find(dna_hash.as_slice()) {
            Some(i) => {
                self.cells.set(i, (dna_hash, cell));
                proof {
                    assert(self.hashes() =~= before);
                    assert(self@ =~= old(self)@.insert(hash, cell));
                }
            },
            None => {
                self.cells.push((dna_hash, cell));
                proof {
                    let after = self.hashes();
                    assert(after =~= before.push(hash));
                    assert forall|x: Seq<u8>| after.contains(x) <==> (before.contains(x) || x
                        == hash) by {
                        if before.contains(x) {
                            let was = before.index_of(x);
                            assert(before[was] == x);
                            assert(after[was] == x);
                        }
                        if after.contains(x) && x != hash {
                            let at = after.index_of(x);
                            assert(after[at] == x);
                            assert(before[at] == x);
                        }
                        assert(after[before.len() as int] == hash);
                    }
                    assert forall|x: Seq<u8>| #[trigger]
                        self@.dom().contains(x) implies self@[x] == old(self)@.insert(hash, cell)[x] by {
                        let at = after.index_of(x);
                        assert(after[at] == x);
                        if x != hash {
                            let was = before.index_of(x);
                            assert(before[was] == x);
                            assert(after[was] == x);
                        }
                    }
                    assert(self@ =~= old(self)@.insert(hash, cell));
                }
            },
        }
    }
}

impl<C: Clone> DpkiService<C> {
    /// A handle to the registry that is kept under `dna_hash`, if there is
    /// one.
    pub fn get_dpki_cell(&self, dna_hash: &[u8]) -> (r: Option<C>)
        requires
            self.wf(),
        ensures
            match r {
                Some(cell) => self@.dom().contains(dna_hash@) && cloned(self@[dna_hash@], cell),
                None => !self@.dom().contains(dna_hash@),
            },
    {
        match self.find(dna_hash) {
            Some(i) => Some(self.cells[i].1.clone()),
            None => None,
        }
    }
}

/// Whether two byte strings are the same.
fn same_bytes(a: &[u8], b: &[u8]) -> (r: bool)
    ensures
        r == (a@ == b@),
{
    if a.len() != b.len() {
        return false;
    }
    let mut i: usize = 0;
    while i < a.len()
        invariant
            i <= a.len(),
            a.len() == b.len(),
            forall|j: int| 0 <= j < i ==> a@[j] == b@[j],
        decreases a.len() - i,
    {
        if a[i] != b[i] {
            return false;
        }
        i = i + 1;
    }
    proof {
        assert(a@ =~= b@);
    }
    true
}

} // verus!
