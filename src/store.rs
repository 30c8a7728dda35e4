use vstd::prelude::*;

use crate::schema::{values_view, Schema};
use crate::types::{DBValue, Type, ValueV};

verus! {

/// Where an entry lives in the store: the catalog of table names, a table's index of
/// record identifiers, a table's schema, or one record's values.
#[derive(Clone, Debug)]
pub enum Key {
    Catalog,
    Index(String),
    Layout(String),
    Row(u64),
}

pub enum KeyV {
    Catalog,
    Index(Seq<char>),
    Layout(Seq<char>),
    Row(u64),
}

impl View for Key {
    type V = KeyV;

    open spec fn view(&self) -> KeyV {
        match self {
            Key::Catalog => KeyV::Catalog,
            Key::Index(n) => KeyV::Index(n@),
            Key::Layout(n) => KeyV::Layout(n@),
            Key::Row(i) => KeyV::Row(*i),
        }
    }
}

/// What the store holds under a key.
#[derive(Clone, Debug)]
pub enum Entry {
    Names(Vec<String>),
    Index(Vec<u64>),
    Layout(Schema),
    Row(Vec<DBValue>),
}

pub enum EntryV {
    Names(Seq<Seq<char>>),
    Index(Seq<u64>),
    Layout(Seq<(Seq<char>, Type)>),
    Row(Seq<ValueV>),
}

/// The views of a sequence of strings.
pub open spec fn names_view(v: Seq<String>) -> Seq<Seq<char>> {
    v.map_values(|s: String| s@)
}

impl View for Entry {
    type V = EntryV;

    open spec fn view(&self) -> EntryV {
        match self {
            Entry::Names(v) => EntryV::Names(names_view(v@)),
            Entry::Index(v) => EntryV::Index(v@),
            Entry::Layout(s) => EntryV::Layout(s@),
            Entry::Row(v) => EntryV::Row(values_view(v@)),
        }
    }
}

/// A copy with the same view.
pub fn copy_key(k: &Key) -> (r: Key)
    ensures
        r@ == k@,
{
    match k {
        Key::Catalog => Key::Catalog,
        Key::Index(n) => Key::Index(n.clone()),
        Key::Layout(n) => Key::Layout(n.clone()),
        Key::Row(i) => Key::Row(*i),
    }
}

/// Whether two keys stand for the same place.
pub fn key_eq(a: &Key, b: &Key) -> (r: bool)
    ensures
        r == (a@ == b@),
{
    match (a, b) {
        (Key::Catalog, Key::Catalog) => true,
        (Key::Index(x), Key::Index(y)) => *x == *y,
        (Key::Layout(x), Key::Layout(y)) => *x == *y,
        (Key::Row(x), Key::Row(y)) => *x == *y,
        _ => false,
    }
}

/// A copy with the same view.
pub fn copy_names(v: &Vec<String>) -> (r: Vec<String>)
    ensures
        names_view(r@) == names_view(v@),
{
    let mut r: Vec<String> = Vec::new();
    let mut i: usize = 0;
    while i < v.len()
        invariant
            i <= v@.len(),
            r@.len() == i,
            forall|j: int| 0 <= j < i ==> r@[j]@ == v@[j]@,
        decreases v@.len() - i,
    {
        r.push(v[i].clone());
        i = i + 1;
    }
    assert(names_view(r@) =~= names_view(v@));
    r
}

/// A copy of an index.
pub fn copy_ids(v: &Vec<u64>) -> (r: Vec<u64>)
    ensures
        r@ == v@,
{
    let mut r: Vec<u64> = Vec::new();
    let mut i: usize = 0;
    while i < v.len()
        invariant
            i <= v@.len(),
            r@ == v@.subrange(0, i as int),
        decreases v@.len() - i,
    {
        r.push(v[i]);
        i = i + 1;
        assert(r@ =~= v@.subrange(0, i as int));
    }
    assert(v@.subrange(0, v@.len() as int) =~= v@);
    r
}

/// A copy with the same view.
pub fn copy_values(v: &[DBValue]) -> (r: Vec<DBValue>)
    ensures
        values_view(r@) == values_view(v@),
{
    let mut r: Vec<DBValue> = Vec::new();
    let mut i: usize = 0;
    while i < v.len()
        invariant
            i <= v@.len(),
            r@.len() == i,
            forall|j: int| 0 <= j < i ==> r@[j]@ == v@[j]@,
        decreases v@.len() - i,
    {
        r.push(v[i].duplicate());
        i = i + 1;
    }
    assert(values_view(r@) =~= values_view(v@));
    r
}

impl Entry {
    /// A copy with the same view.
    pub fn duplicate(&self) -> (r: Entry)
        ensures
            r@ == self@,
    {
        match self {
            Entry::Names(v) => Entry::Names(copy_names(v)),
            Entry::Index(v) => Entry::Index(copy_ids(v)),
            Entry::Layout(s) => Entry::Layout(s.duplicate()),
            Entry::Row(v) => Entry::Row(copy_values(v.as_slice())),
        }
    }
}

/// A key-value substrate: single-key lookups, writes and deletions.
pub trait GetSet {
    /// What the store holds.
    spec fn kv(&self) -> Map<KeyV, EntryV>;

    /// Writes `v` under `k`.
    fn set_unsafe(&mut self, k: &Key, v: Entry)
        ensures
            final(self).kv() == old(self).kv().insert(k@, v@),
    ;

    /// What is held under `k`, if anything.
    fn get_unsafe(&self, k: &Key) -> (r: Option<Entry>)
        ensures
            match r {
                Some(e) => self.kv().contains_key(k@) && e@ == self.kv()[k@],
                None => !self.kv().contains_key(k@),
            },
    ;

    /// Removes `k`; true when something was removed.
    fn del(&mut self, k: &Key) -> (r: bool)
        ensures
            r == old(self).kv().contains_key(k@),
            final(self).kv() == old(self).kv().remove(k@),
    ;

    /// Whether anything is held under `k`.
    fn has_key(&self, k: &Key) -> (r: bool)
        ensures
            r == self.kv().contains_key(k@),
    ;
}

/// A store held in memory.
pub struct MemStore {
    keys: Vec<Key>,
    vals: Vec<Entry>,
    contents: Ghost<Map<KeyV, EntryV>>,
}

impl MemStore {
    #[verifier::type_invariant]
    spec fn wf(&self) -> bool {
        &&& self.keys@.len() == self.vals@.len()
        &&& forall|i: int, j: int|
            0 <= i < self.keys@.len() && 0 <= j < self.keys@.len() && i != j ==> self.keys@[i]@
                != self.keys@[j]@
        &&& forall|k: KeyV|
            self.contents@.contains_key(k) <==> exists|i: int|
                0 <= i < self.keys@.len() && #[trigger] self.keys@[i]@ == k
        &&& forall|i: int|
            0 <= i < self.keys@.len() ==> self.contents@[#[trigger] self.keys@[i]@]
                == self.vals@[i]@
    }

    /// An empty store.
    pub fn new() -> (r: MemStore)
        ensures
            r.kv() == Map::<KeyV, EntryV>::empty(),
    {
        MemStore { keys: Vec::new(), vals: Vec::new(), contents: Ghost(Map::empty()) }
    }

    /// The key of every entry.
    pub fn keys(&self) -> (r: Vec<Key>)
        ensures
            forall|k: KeyV|
                self.kv().contains_key(k) <==> exists|i: int|
                    0 <= i < r@.len() && #[trigger] r@[i]@ == k,
    {
        proof {
            use_type_invariant(self);
        }
        let mut out: Vec<Key> = Vec::new();
        let mut i: usize = 0;
        while i < self.keys.len()
            invariant
                self.wf(),
                i <= self.keys@.len(),
                out@.len() == i,
                forall|j: int| 0 <= j < i ==> (#[trigger] out@[j])@ == self.keys@[j]@,
            decreases self.keys@.len() - i,
        {
            out.push(copy_key(&self.keys[i]));
            i = i + 1;
        }
        assert forall|k: KeyV| self.kv().contains_key(k) <==> exists|i: int|
            0 <= i < out@.len() && #[trigger] out@[i]@ == k by {
            if self.kv().contains_key(k) {
                let j = choose|j: int| 0 <= j < self.keys@.len() && #[trigger] self.keys@[j]@ == k;
                assert(out@[j]@ == k);
            }
            if exists|i: int| 0 <= i < out@.len() && #[trigger] out@[i]@ == k {
                let j = choose|j: int| 0 <= j < out@.len() && #[trigger] out@[j]@ == k;
                assert(self.keys@[j]@ == k);
            }
        }
        out
    }

    fn find(&self, k: &Key) -> (r: Option<usize>)
        ensures
            match r {
                Some(i) => i < self.keys@.len() && self.keys@[i as int]@ == k@,
                None => !self.contents@.contains_key(k@),
            },
    {
        proof {
            use_type_invariant(self);
        }
        let mut i: usize = 0;
        while i < self.keys.len()
            invariant
                self.wf(),
                i <= self.keys@.len(),
                forall|j: int| 0 <= j < i ==> self.keys@[j]@ != k@,
            decreases self.keys@.len() - i,
        {
            if key_eq(&self.keys[i], k) {
                return Some(i);
            }
            i = i + 1;
        }
        None
    }
}

impl GetSet for MemStore {
    closed spec fn kv(&self) -> Map<KeyV, EntryV> {
        self.contents@
    }

    fn set_unsafe(&mut self, k: &Key, v: Entry) {
        proof {
            use_type_invariant(&*self);
        }
        let pos = self.find(k);
        let mut taken = MemStore::new();
        core::mem::swap(self, &mut taken);
        let MemStore { mut keys, mut vals, contents } = taken;
        let ghost ok = keys@;
        let ghost m = contents@.insert(k@, v@);
        match pos {
            Some(i) => {
                vals.set(i, v);
                assert forall|j: int| 0 <= j < keys@.len() implies m[#[trigger] keys@[j]@]
                    == vals@[j]@ by {
                    if j != i {
                        assert(keys@[j]@ != keys@[i as int]@);
                    }
                }
            },
            None => {
                keys.push(copy_key(k));
                vals.push(v);
                let ghost n = keys@.len() - 1;
                assert(keys@[n]@ == k@);
                assert forall|kk: KeyV| m.contains_key(kk) implies exists|i: int|
                    0 <= i < keys@.len() && #[trigger] keys@[i]@ == kk by {
                    if kk == k@ {
                        assert(keys@[n]@ == kk);
                    } else {
                        let i = choose|i: int| 0 <= i < ok.len() && #[trigger] ok[i]@ == kk;
                        assert(keys@[i]@ == kk);
                    }
                }
                assert forall|j: int| 0 <= j < keys@.len() implies m[#[trigger] keys@[j]@]
                    == vals@[j]@ by {
                    if j < n {
                        assert(ok[j]@ == keys@[j]@);
                    }
                }
                assert forall|a: int, b: int|
                    0 <= a < keys@.len() && 0 <= b < keys@.len() && a != b implies keys@[a]@
                    != keys@[b]@ by {
                    if a == n {
                        assert(ok[b]@ != k@);
                    } else if b == n {
                        assert(ok[a]@ != k@);
                    } else {
                        assert(ok[a]@ != ok[b]@);
                    }
                }
            },
        }
        *self = MemStore { keys, vals, contents: Ghost(m) };
    }

    fn get_unsafe(&self, k: &Key) -> (r: Option<Entry>) {
        proof {
            use_type_invariant(self);
        }
        match self.find(k) {
            Some(i) => Some(self.vals[i].duplicate()),
            None => None,
        }
    }

    fn del(&mut self, k: &Key) -> (r: bool) {
        proof {
            use_type_invariant(&*self);
        }
        let pos = self.find(k);
        match pos {
            Some(i) => {
                let mut taken = MemStore::new();
                core::mem::swap(self, &mut taken);
                let MemStore { mut keys, mut vals, contents } = taken;
                let ghost ok = keys@;
                let ghost ov = vals@;
                let ghost m = contents@.remove(k@);
                keys.remove(i);
                vals.remove(i);
                assert forall|j: int| 0 <= j < keys@.len() implies keys@[j]@ != k@ by {
                    if j < i {
                        assert(ok[j]@ != ok[i as int]@);
                    } else {
                        assert(ok[j + 1]@ != ok[i as int]@);
                    }
                }
                assert forall|kk: KeyV| m.contains_key(kk) implies exists|j: int|
                    0 <= j < keys@.len() && #[trigger] keys@[j]@ == kk by {
                    let j = choose|j: int| 0 <= j < ok.len() && #[trigger] ok[j]@ == kk;
                    if j < i {
                        assert(keys@[j]@ == kk);
                    } else {
                        assert(j != i);
                        assert(keys@[j - 1]@ == kk);
                    }
                }
                assert forall|j: int| 0 <= j < keys@.len() implies m[#[trigger] keys@[j]@]
                    == vals@[j]@ by {
                    if j < i {
                        assert(ok[j]@ == keys@[j]@);
                        assert(contents@[ok[j]@] == ov[j]@);
                    } else {
                        assert(ok[j + 1]@ == keys@[j]@);
                        assert(contents@[ok[j + 1]@] == ov[j + 1]@);
                    }
                }
                assert forall|a: int, b: int|
                    0 <= a < keys@.len() && 0 <= b < keys@.len() && a != b implies keys@[a]@
                    != keys@[b]@ by {
                    let a1 = if a < i {
                        a
                    } else {
                        a + 1
                    };
                    let b1 = if b < i {
                        b
                    } else {
                        b + 1
                    };
                    assert(ok[a1]@ != ok[b1]@);
                }
                *self = MemStore { keys, vals, contents: Ghost(m) };
                true
            },
            None => {
                assert(self.contents@ =~= self.contents@.remove(k@));
                false
            },
        }
    }

    fn has_key(&self, k: &Key) -> (r: bool) {
        proof {
            use_type_invariant(self);
        }
        match self.find(k) {
            Some(_) => true,
            None => false,
        }
    }
}

} // verus!
