use vstd::prelude::*;

use crate::error::DBError;
use crate::schema::Schema;
use crate::store::{names_view, Entry, EntryV, GetSet, Key, KeyV, MemStore};
use crate::sort::{lemma_lex_total, lemma_lex_trans, lex_le, text_le};
use crate::table::{footprint, has_row, row_of, Table};

verus! {

/// A database: a named catalog of tables over one store.
pub struct DB<KV: GetSet> {
    pub tree: KV,
    pub name: String,
}

/// The table names that the catalog of `kv` lists (empty when it has none).
pub open spec fn catalog(kv: Map<KeyV, EntryV>) -> Seq<Seq<char>> {
    match kv[KeyV::Catalog] {
        EntryV::Names(ns) => ns,
        _ => Seq::empty(),
    }
}

/// The record identifiers that the index of table `name` lists (empty when it has none).
pub open spec fn index_of(kv: Map<KeyV, EntryV>, name: Seq<char>) -> Seq<u64> {
    match kv[KeyV::Index(name)] {
        EntryV::Index(ids) => ids,
        _ => Seq::empty(),
    }
}

/// `kv` after table `name` is taken out of the catalog and its index, its schema and
/// the records of its index are deleted.
pub open spec fn table_removed(kv: Map<KeyV, EntryV>, name: Seq<char>) -> Map<KeyV, EntryV> {
    kv.insert(
        KeyV::Catalog,
        EntryV::Names(catalog(kv).remove(catalog(kv).index_of(name))),
    ).remove_keys(footprint(name, index_of(kv, name)))
}

/// `kv` holds an index and a schema for table `name`.
pub open spec fn table_present(kv: Map<KeyV, EntryV>, name: Seq<char>) -> bool {
    &&& kv.contains_key(KeyV::Index(name))
    &&& kv[KeyV::Index(name)] is Index
    &&& kv.contains_key(KeyV::Layout(name))
    &&& kv[KeyV::Layout(name)] is Layout
}

/// `kv` holds table `name` consistently: an index of distinct identifiers, a schema,
/// and for each identifier a record with one value per column.
pub open spec fn table_stored(kv: Map<KeyV, EntryV>, name: Seq<char>) -> bool {
    &&& table_present(kv, name)
    &&& index_of(kv, name).no_duplicates()
    &&& forall|j: int|
        0 <= j < index_of(kv, name).len() ==> has_row(kv, #[trigger] index_of(kv, name)[j])
            && row_of(kv, index_of(kv, name)[j]).len() == kv[KeyV::Layout(name)]->Layout_0.len()
}

/// `kv` holds a catalog of distinct names, which are exactly the tables that have an
/// index, and each of which has a schema.
pub open spec fn catalog_wf(kv: Map<KeyV, EntryV>) -> bool {
    &&& kv.contains_key(KeyV::Catalog)
    &&& kv[KeyV::Catalog] is Names
    &&& catalog(kv).no_duplicates()
    &&& forall|n: Seq<char>|
        #![trigger kv.contains_key(KeyV::Index(n))]
        catalog(kv).contains(n) <==> kv.contains_key(KeyV::Index(n))
    &&& forall|n: Seq<char>|
        #![trigger kv.contains_key(KeyV::Layout(n))]
        catalog(kv).contains(n) ==> kv.contains_key(KeyV::Layout(n))
}

/// Taking a listed table out of the catalog, with its keys, keeps the catalog well formed.
pub proof fn lemma_catalog_after_remove(
    kv: Map<KeyV, EntryV>,
    name: Seq<char>,
    p: int,
    ids: Seq<u64>,
)
    requires
        catalog_wf(kv),
        0 <= p < catalog(kv).len(),
        catalog(kv)[p] == name,
    ensures
        catalog_wf(
            kv.insert(KeyV::Catalog, EntryV::Names(catalog(kv).remove(p))).remove_keys(
                footprint(name, ids),
            ),
        ),
{
    let ns = catalog(kv);
    let ns1 = ns.remove(p);
    let kv1 = kv.insert(KeyV::Catalog, EntryV::Names(ns1)).remove_keys(footprint(name, ids));
    assert(!footprint(name, ids).contains(KeyV::Catalog));
    assert(catalog(kv1) == ns1);
    assert forall|a: int, b: int| 0 <= a < ns1.len() && 0 <= b < ns1.len() && a != b implies ns1[a]
        != ns1[b] by {
        let a1 = if a < p {
            a
        } else {
            a + 1
        };
        let b1 = if b < p {
            b
        } else {
            b + 1
        };
        assert(ns[a1] != ns[b1]);
    }
    assert forall|n: Seq<char>| ns1.contains(n) <==> (ns.contains(n) && n != name) by {
        if ns1.contains(n) {
            let j = choose|j: int| 0 <= j < ns1.len() && ns1[j] == n;
            if j < p {
                assert(ns[j] == n);
                assert(ns[j] != ns[p]);
            } else {
                assert(ns[j + 1] == n);
                assert(ns[j + 1] != ns[p]);
            }
        }
        if ns.contains(n) && n != name {
            let j = choose|j: int| 0 <= j < ns.len() && ns[j] == n;
            assert(j != p);
            if j < p {
                assert(ns1[j] == n);
            } else {
                assert(ns1[j - 1] == n);
            }
        }
    }
    assert forall|n: Seq<char>|
        #![trigger kv1.contains_key(KeyV::Index(n))]
        catalog(kv1).contains(n) <==> kv1.contains_key(KeyV::Index(n)) by {
        assert(kv.contains_key(KeyV::Index(n)) <==> ns.contains(n));
        if n == name {
            assert(footprint(name, ids).contains(KeyV::Index(n)));
        } else {
            assert(!footprint(name, ids).contains(KeyV::Index(n)));
        }
    }
    assert forall|n: Seq<char>|
        #![trigger kv1.contains_key(KeyV::Layout(n))]
        catalog(kv1).contains(n) implies kv1.contains_key(KeyV::Layout(n)) by {
        assert(kv.contains_key(KeyV::Layout(n)));
        assert(!footprint(name, ids).contains(KeyV::Layout(n)));
    }
}

impl<KV: GetSet> DB<KV> {
    pub open spec fn wf(&self) -> bool {
        catalog_wf(self.tree.kv())
    }

    /// A database over `tree`, with an empty catalog written if it has none.
    pub fn new(name: &str, tree: KV) -> (r: DB<KV>)
        ensures
            r.name@ == name@,
            tree.kv().contains_key(KeyV::Catalog) ==> r.tree.kv() == tree.kv(),
            !tree.kv().contains_key(KeyV::Catalog) ==> r.tree.kv() == tree.kv().insert(
                KeyV::Catalog,
                EntryV::Names(Seq::empty()),
            ),
    {
        let mut tree = tree;
        if !tree.has_key(&Key::Catalog) {
            let tables: Vec<String> = Vec::new();
            tree.set_unsafe(&Key::Catalog, Entry::Names(tables));
            assert(names_view(tables@) =~= Seq::<Seq<char>>::empty());
        }
        DB { tree, name: name.to_string() }
    }

    /// The names in the catalog.
    pub fn get_tables(&self) -> (r: Result<Vec<String>, DBError>)
        ensures
            match r {
                Ok(v) => self.tree.kv().contains_key(KeyV::Catalog) && self.tree.kv()[KeyV::Catalog]
                    == EntryV::Names(names_view(v@)),
                Err(e) => e == DBError::TableNotFound && !(self.tree.kv().contains_key(
                    KeyV::Catalog,
                ) && self.tree.kv()[KeyV::Catalog] is Names),
            },
    {
        match self.tree.get_unsafe(&Key::Catalog) {
            Some(Entry::Names(v)) => Ok(v),
            _ => Err(DBError::TableNotFound),
        }
    }

    /// Creates table `name` with `schema` and no records, and lists it in the catalog.
    pub fn add_table(&mut self, name: &str, schema: &Schema) -> (r: Result<(), DBError>)
        requires
            old(self).wf(),
        ensures
            final(self).wf(),
            final(self).name == old(self).name,
            old(self).tree.kv().contains_key(KeyV::Index(name@)) ==> r == Err::<(), DBError>(
                DBError::TableExists,
            ) && final(self).tree.kv() == old(self).tree.kv(),
            !old(self).tree.kv().contains_key(KeyV::Index(name@)) ==> r is Ok && final(
                self
            ).tree.kv() == old(self).tree.kv().insert(
                KeyV::Index(name@),
                EntryV::Index(Seq::empty()),
            ).insert(KeyV::Layout(name@), EntryV::Layout(schema@)).insert(
                KeyV::Catalog,
                EntryV::Names(catalog(old(self).tree.kv()).push(name@)),
            ),
    {
        if self.tree.has_key(&Key::Index(name.to_string())) {
            return Err(DBError::TableExists);
        }
        let ghost kv0 = self.tree.kv();
        let tab = Table::new(name, schema.duplicate(), Vec::new());
        tab.update(&mut self.tree);
        let mut tv = match self.get_tables() {
            Ok(tv) => tv,
            Err(e) => {
                return Err(e);
            },
        };
        let ghost ns0 = names_view(tv@);
        tv.push(name.to_string());
        assert(names_view(tv@) =~= ns0.push(name@));
        self.tree.set_unsafe(&Key::Catalog, Entry::Names(tv));
        proof {
            let kv1 = self.tree.kv();
            assert(tab.records@ =~= Seq::<u64>::empty());
            assert(catalog(kv1) == catalog(kv0).push(name@));
            assert(!catalog(kv0).contains(name@));
            assert forall|a: int, b: int|
                0 <= a < catalog(kv1).len() && 0 <= b < catalog(kv1).len() && a != b
                    implies catalog(kv1)[a] != catalog(kv1)[b] by {
                if a < catalog(kv0).len() && b < catalog(kv0).len() {
                } else if a < catalog(kv0).len() {
                    assert(catalog(kv0).contains(catalog(kv0)[a]));
                } else {
                    assert(catalog(kv0).contains(catalog(kv0)[b]));
                }
            }
            assert forall|n: Seq<char>|
                #![trigger kv1.contains_key(KeyV::Index(n))]
                catalog(kv1).contains(n) <==> kv1.contains_key(KeyV::Index(n)) by {
                if catalog(kv1).contains(n) && n != name@ {
                    let j = choose|j: int| 0 <= j < catalog(kv1).len() && catalog(kv1)[j] == n;
                    assert(catalog(kv0)[j] == n);
                }
                if kv1.contains_key(KeyV::Index(n)) && n != name@ {
                    assert(kv0.contains_key(KeyV::Index(n)));
                    let j = choose|j: int| 0 <= j < catalog(kv0).len() && catalog(kv0)[j] == n;
                    assert(catalog(kv1)[j] == n);
                }
                if n == name@ {
                    assert(catalog(kv1)[catalog(kv1).len() - 1] == n);
                }
            }
            assert forall|n: Seq<char>|
                #![trigger kv1.contains_key(KeyV::Layout(n))]
                catalog(kv1).contains(n) implies kv1.contains_key(KeyV::Layout(n)) by {
                if n != name@ {
                    let j = choose|j: int| 0 <= j < catalog(kv1).len() && catalog(kv1)[j] == n;
                    assert(catalog(kv0)[j] == n);
                    assert(kv0.contains_key(KeyV::Index(n)));
                }
            }
        }
        Ok(())
    }

    /// Removes table `name` from the catalog, with its index, its schema and every
    /// record of its index.
    pub fn remove_table(&mut self, name: &str) -> (r: Result<(), DBError>)
        requires
            old(self).wf(),
        ensures
            final(self).wf(),
            final(self).name == old(self).name,
            r is Ok <==> old(self).tree.kv().contains_key(KeyV::Index(name@)),
            r is Err ==> r == Err::<(), DBError>(DBError::TableNotFound) && final(self).tree.kv()
                == old(self).tree.kv(),
            r is Ok ==> final(self).tree.kv() == table_removed(old(self).tree.kv(), name@),
    {
        let k = Key::Index(name.to_string());
        if !self.tree.has_key(&k) {
            return Err(DBError::TableNotFound);
        }
        let ghost kv0 = self.tree.kv();
        let ids: Vec<u64> = match self.tree.get_unsafe(&k) {
            Some(Entry::Index(ids)) => ids,
            _ => Vec::new(),
        };
        assert(ids@ == index_of(kv0, name@));
        let mut tv = match self.get_tables() {
            Ok(tv) => tv,
            Err(e) => {
                return Err(e);
            },
        };
        let ghost ns0 = names_view(tv@);
        let p = match name_position(&tv, name) {
            Some(p) => p,
            None => {
                return Err(DBError::TableNotFound);
            },
        };
        proof {
            ns0.index_of_first_ensures(name@);
            assert(ns0.index_of(name@) == p as int) by {
                let q = ns0.index_of(name@);
                assert(ns0[q] == name@);
                assert(ns0[p as int] == name@);
            }
        }
        tv.remove(p);
        assert(names_view(tv@) =~= ns0.remove(p as int));
        self.tree.set_unsafe(&Key::Catalog, Entry::Names(tv));
        self.tree.del(&k);
        self.tree.del(&Key::Layout(name.to_string()));
        let ghost kvc = kv0.insert(KeyV::Catalog, EntryV::Names(ns0.remove(p as int)));
        assert(self.tree.kv() =~= kvc.remove_keys(footprint(name@, ids@.subrange(0, 0))));
        let mut i: usize = 0;
        while i < ids.len()
            invariant
                self.name == old(self).name,
                i <= ids@.len(),
                self.tree.kv() == kvc.remove_keys(footprint(name@, ids@.subrange(0, i as int))),
            decreases ids@.len() - i,
        {
            self.tree.del(&Key::Row(ids[i]));
            proof {
                let f0 = footprint(name@, ids@.subrange(0, i as int));
                let f1 = footprint(name@, ids@.subrange(0, i + 1));
                assert forall|key: KeyV| f1.contains(key) <==> (f0.contains(key) || key
                    == KeyV::Row(ids@[i as int])) by {
                    if key is Row && ids@.subrange(0, i + 1).contains(key->Row_0) {
                        let j = choose|j: int|
                            0 <= j < i + 1 && #[trigger] ids@.subrange(0, i + 1)[j] == key->Row_0;
                        if j < i {
                            assert(ids@.subrange(0, i as int)[j] == key->Row_0);
                        }
                    }
                    if key is Row && ids@.subrange(0, i as int).contains(key->Row_0) {
                        let j = choose|j: int|
                            0 <= j < i && #[trigger] ids@.subrange(0, i as int)[j] == key->Row_0;
                        assert(ids@.subrange(0, i + 1)[j] == key->Row_0);
                    }
                    if key == KeyV::Row(ids@[i as int]) {
                        assert(ids@.subrange(0, i + 1)[i as int] == ids@[i as int]);
                    }
                }
                assert(self.tree.kv() =~= kvc.remove_keys(f1));
            }
            i = i + 1;
        }
        assert(ids@.subrange(0, ids@.len() as int) =~= ids@);
        proof {
            lemma_catalog_after_remove(kv0, name@, p as int, ids@);
        }
        Ok(())
    }

    /// A handle on table `name`, loaded from the store and checked against it.
    pub fn get_table(&self, name: &str) -> (r: Result<Table, DBError>)
        ensures
            r is Ok <==> table_stored(self.tree.kv(), name@),
            match r {
                Ok(t) => t.name@ == name@ && t.wf_in(self.tree.kv()),
                Err(e) => if table_present(self.tree.kv(), name@) {
                    e == DBError::StoreError
                } else {
                    e == DBError::TableNotFound
                },
            },
    {
        let recs = match self.tree.get_unsafe(&Key::Index(name.to_string())) {
            Some(Entry::Index(v)) => v,
            _ => {
                return Err(DBError::TableNotFound);
            },
        };
        let schema = match self.tree.get_unsafe(&Key::Layout(name.to_string())) {
            Some(Entry::Layout(s)) => s,
            _ => {
                return Err(DBError::TableNotFound);
            },
        };
        let t = Table::new(name, schema, recs);
        let mut i: usize = 0;
        while i < t.records.len()
            invariant
                self.tree.kv().contains_key(KeyV::Index(name@)),
                self.tree.kv()[KeyV::Index(name@)] == EntryV::Index(t.records@),
                self.tree.kv().contains_key(KeyV::Layout(name@)),
                self.tree.kv()[KeyV::Layout(name@)] == EntryV::Layout(t.schema@),
                t.name@ == name@,
                i <= t.records@.len(),
                forall|a: int, b: int| 0 <= a < b < i ==> t.records@[a] != t.records@[b],
                forall|j: int|
                    0 <= j < i ==> has_row(self.tree.kv(), #[trigger] t.records@[j]) && row_of(
                        self.tree.kv(),
                        t.records@[j],
                    ).len() == t.schema@.len(),
            decreases t.records@.len() - i,
        {
            match self.tree.get_unsafe(&Key::Row(t.records[i])) {
                Some(Entry::Row(v)) => {
                    if v.len() != t.schema.columns.len() {
                        assert(row_of(self.tree.kv(), index_of(self.tree.kv(), name@)[i as int]).len()
                            != self.tree.kv()[KeyV::Layout(name@)]->Layout_0.len());
                        return Err(DBError::StoreError);
                    }
                },
                _ => {
                    assert(!has_row(self.tree.kv(), index_of(self.tree.kv(), name@)[i as int]));
                    return Err(DBError::StoreError);
                },
            }
            let mut j: usize = 0;
            while j < i
                invariant
                    self.tree.kv().contains_key(KeyV::Index(name@)),
                    self.tree.kv()[KeyV::Index(name@)] == EntryV::Index(t.records@),
                    self.tree.kv().contains_key(KeyV::Layout(name@)),
                    self.tree.kv()[KeyV::Layout(name@)] == EntryV::Layout(t.schema@),
                    j <= i < t.records@.len(),
                    forall|a: int| 0 <= a < j ==> t.records@[a] != t.records@[i as int],
                decreases i - j,
            {
                if t.records[j] == t.records[i] {
                    assert(!index_of(self.tree.kv(), name@).no_duplicates()) by {
                        assert(index_of(self.tree.kv(), name@)[j as int] == index_of(
                            self.tree.kv(),
                            name@,
                        )[i as int]);
                    }
                    return Err(DBError::StoreError);
                }
                j = j + 1;
            }
            i = i + 1;
        }
        assert(t.records@.no_duplicates()) by {
            assert forall|a: int, b: int|
                0 <= a < t.records@.len() && 0 <= b < t.records@.len() && a != b
                    implies t.records@[a] != t.records@[b] by {
                if a < b {
                } else {
                }
            }
        }
        Ok(t)
    }
}

/// The position of `name` in `tv`.
fn name_position(tv: &Vec<String>, name: &str) -> (r: Option<usize>)
    ensures
        match r {
            Some(p) => p < tv@.len() && tv@[p as int]@ == name@ && forall|j: int|
                0 <= j < p ==> tv@[j]@ != name@,
            None => !names_view(tv@).contains(name@),
        },
{
    let mut p: usize = 0;
    while p < tv.len()
        invariant
            p <= tv@.len(),
            forall|j: int| 0 <= j < p ==> tv@[j]@ != name@,
        decreases tv@.len() - p,
    {
        if tv[p] == name.to_string() {
            return Some(p);
        }
        p = p + 1;
    }
    proof {
        if names_view(tv@).contains(name@) {
            let j = choose|j: int| 0 <= j < names_view(tv@).len() && names_view(tv@)[j] == name@;
            assert(tv@[j]@ == name@);
        }
    }
    None
}

/// `kv`, with an empty catalog when it has none.
pub open spec fn with_catalog(kv: Map<KeyV, EntryV>) -> Map<KeyV, EntryV> {
    if kv.contains_key(KeyV::Catalog) {
        kv
    } else {
        kv.insert(KeyV::Catalog, EntryV::Names(Seq::empty()))
    }
}

impl DB<MemStore> {
    /// A database over a loaded store, with an empty catalog written if it has none,
    /// and checked to hold a well-formed catalog.
    pub fn open(name: &str, tree: MemStore) -> (r: Result<DB<MemStore>, DBError>)
        ensures
            match r {
                Ok(d) => d.wf() && d.name@ == name@ && d.tree.kv() == with_catalog(tree.kv()),
                Err(e) => e == DBError::StoreError && !catalog_wf(with_catalog(tree.kv())),
            },
    {
        let d = DB::new(name, tree);
        let ghost kv = d.tree.kv();
        assert(kv == with_catalog(tree.kv()));
        let tv = match d.get_tables() {
            Ok(tv) => tv,
            Err(_) => {
                return Err(DBError::StoreError);
            },
        };
        let ghost ns = names_view(tv@);
        assert(catalog(kv) == ns);
        let mut i: usize = 0;
        while i < tv.len()
            invariant
                d.tree.kv() == kv,
                kv == with_catalog(tree.kv()),
                kv.contains_key(KeyV::Catalog),
                kv[KeyV::Catalog] is Names,
                d.name@ == name@,
                ns == names_view(tv@),
                catalog(kv) == ns,
                i <= tv@.len(),
                forall|a: int, b: int| 0 <= a < b < i ==> ns[a] != ns[b],
                forall|j: int|
                    0 <= j < i ==> kv.contains_key(KeyV::Index(#[trigger] ns[j]))
                        && kv.contains_key(KeyV::Layout(ns[j])),
            decreases tv@.len() - i,
        {
            let mut j: usize = 0;
            while j < i
                invariant
                    d.tree.kv() == kv,
                    kv == with_catalog(tree.kv()),
                    catalog(kv) == ns,
                    ns == names_view(tv@),
                    j <= i < tv@.len(),
                    forall|a: int| 0 <= a < j ==> ns[a] != ns[i as int],
                decreases i - j,
            {
                if tv[j] == tv[i] {
                    assert(ns[j as int] == ns[i as int]);
                    return Err(DBError::StoreError);
                }
                j = j + 1;
            }
            if !d.tree.has_key(&Key::Index(tv[i].clone())) {
                assert(ns.contains(ns[i as int]));
                return Err(DBError::StoreError);
            }
            if !d.tree.has_key(&Key::Layout(tv[i].clone())) {
                assert(ns.contains(ns[i as int]));
                return Err(DBError::StoreError);
            }
            i = i + 1;
        }
        assert(ns.no_duplicates()) by {
            assert forall|a: int, b: int| 0 <= a < ns.len() && 0 <= b < ns.len() && a != b implies ns[a]
                != ns[b] by {
                if a < b {
                } else {
                }
            }
        }
        let ks = d.tree.keys();
        let mut i: usize = 0;
        while i < ks.len()
            invariant
                d.tree.kv() == kv,
                kv == with_catalog(tree.kv()),
                kv.contains_key(KeyV::Catalog),
                kv[KeyV::Catalog] is Names,
                d.name@ == name@,
                catalog(kv) == ns,
                ns.no_duplicates(),
                forall|j: int|
                    0 <= j < ns.len() ==> kv.contains_key(KeyV::Index(#[trigger] ns[j]))
                        && kv.contains_key(KeyV::Layout(ns[j])),
                forall|k: KeyV|
                    kv.contains_key(k) <==> exists|j: int| 0 <= j < ks@.len() && #[trigger] ks@[j]@ == k,
                ns == names_view(tv@),
                i <= ks@.len(),
                forall|j: int|
                    0 <= j < i && (#[trigger] ks@[j]) is Index ==> ns.contains(ks@[j]->Index_0@),
            decreases ks@.len() - i,
        {
            match &ks[i] {
                Key::Index(n) => {
                    match name_position(&tv, n.as_str()) {
                        Some(p) => {
                            assert(ns[p as int] == n@);
                            assert(ns.contains(n@));
                        },
                        None => {
                            assert(kv.contains_key(ks@[i as int]@));
                            assert(kv.contains_key(KeyV::Index(n@)));
                            return Err(DBError::StoreError);
                        },
                    }
                },
                _ => {},
            }
            i = i + 1;
        }
        proof {
            assert forall|n: Seq<char>|
                #![trigger kv.contains_key(KeyV::Index(n))]
                catalog(kv).contains(n) <==> kv.contains_key(KeyV::Index(n)) by {
                if catalog(kv).contains(n) {
                    let j = choose|j: int| 0 <= j < ns.len() && ns[j] == n;
                    assert(kv.contains_key(KeyV::Index(ns[j])));
                }
                if kv.contains_key(KeyV::Index(n)) {
                    let j = choose|j: int| 0 <= j < ks@.len() && #[trigger] ks@[j]@ == KeyV::Index(n);
                    assert(ks@[j] is Index);
                }
            }
            assert forall|n: Seq<char>|
                #![trigger kv.contains_key(KeyV::Layout(n))]
                catalog(kv).contains(n) implies kv.contains_key(KeyV::Layout(n)) by {
                let j = choose|j: int| 0 <= j < ns.len() && ns[j] == n;
                assert(kv.contains_key(KeyV::Layout(ns[j])));
            }
        }
        Ok(d)
    }
}

/// Names in strictly ascending order of their characters' code points.
pub open spec fn strictly_ascending(names: Seq<Seq<char>>) -> bool {
    forall|i: int, j: int|
        0 <= i < j < names.len() ==> lex_le(#[trigger] names[i], #[trigger] names[j]) && names[i]
            != names[j]
}

/// The databases of a process, kept in ascending order of their distinct names.
pub struct Registry<KV: GetSet> {
    pub dbs: Vec<DB<KV>>,
}

impl<KV: GetSet> Registry<KV> {
    pub open spec fn names(&self) -> Seq<Seq<char>> {
        self.dbs@.map_values(|d: DB<KV>| d.name@)
    }

    /// The names are distinct and in ascending order.
    pub open spec fn wf(&self) -> bool {
        strictly_ascending(self.names())
    }

    pub fn new() -> (r: Registry<KV>)
        ensures
            r.dbs@.len() == 0,
            r.wf(),
    {
        Registry { dbs: Vec::new() }
    }
}

/// The names of the databases, in ascending order.
pub fn get_dbs<KV: GetSet>(dbs: &Registry<KV>) -> (r: Vec<String>)
    ensures
        names_view(r@) == dbs.names(),
        dbs.wf() ==> strictly_ascending(names_view(r@)),
{
    let mut out: Vec<String> = Vec::new();
    let mut i: usize = 0;
    while i < dbs.dbs.len()
        invariant
            i <= dbs.dbs@.len(),
            out@.len() == i,
            forall|j: int| 0 <= j < i ==> (#[trigger] out@[j])@ == dbs.dbs@[j].name@,
        decreases dbs.dbs@.len() - i,
    {
        out.push(dbs.dbs[i].name.clone());
        i = i + 1;
    }
    assert(names_view(out@) =~= dbs.names());
    out
}

/// The position of database `name` in the registry.
pub fn get_db<KV: GetSet>(dbs: &Registry<KV>, name: &str) -> (r: Result<usize, DBError>)
    ensures
        match r {
            Ok(i) => i < dbs.dbs@.len() && dbs.dbs@[i as int].name@ == name@,
            Err(e) => e == DBError::DatabaseNotFound && !dbs.names().contains(name@),
        },
{
    let mut i: usize = 0;
    while i < dbs.dbs.len()
        invariant
            i <= dbs.dbs@.len(),
            forall|j: int| 0 <= j < i ==> dbs.dbs@[j].name@ != name@,
        decreases dbs.dbs@.len() - i,
    {
        if dbs.dbs[i].name == name.to_string() {
            return Ok(i);
        }
        i = i + 1;
    }
    proof {
        if dbs.names().contains(name@) {
            let j = choose|j: int| 0 <= j < dbs.names().len() && dbs.names()[j] == name@;
            assert(dbs.dbs@[j].name@ == name@);
        }
    }
    Err(DBError::DatabaseNotFound)
}

/// Where `name` goes among the registry's names: after every one not after it.
fn sorted_position<KV: GetSet>(dbs: &Registry<KV>, name: &str) -> (p: usize)
    ensures
        p <= dbs.dbs@.len(),
        forall|j: int| 0 <= j < p ==> lex_le(#[trigger] dbs.names()[j], name@),
        p < dbs.dbs@.len() ==> !lex_le(dbs.names()[p as int], name@),
{
    let mut p: usize = 0;
    while p < dbs.dbs.len()
        invariant
            p <= dbs.dbs@.len(),
            forall|j: int| 0 <= j < p ==> lex_le(#[trigger] dbs.names()[j], name@),
        decreases dbs.dbs@.len() - p,
    {
        if !text_le(dbs.dbs[p].name.as_str(), name) {
            return p;
        }
        p = p + 1;
    }
    p
}

/// The position of database `name`, which is created over `tree`, at its place in
/// the order of names, when the registry has none of that name (`tree` is dropped
/// otherwise).
pub fn get_or_create_db<KV: GetSet>(dbs: &mut Registry<KV>, name: &str, tree: KV) -> (r: Result<
    usize,
    DBError,
>)
    requires
        old(dbs).wf(),
    ensures
        r is Ok,
        final(dbs).wf(),
        match r {
            Ok(i) => {
                &&& i < final(dbs).dbs@.len()
                &&& final(dbs).dbs@[i as int].name@ == name@
                &&& old(dbs).names().contains(name@) ==> final(dbs).dbs@ == old(dbs).dbs@
                &&& !old(dbs).names().contains(name@) ==> {
                    &&& final(dbs).dbs@ == old(dbs).dbs@.insert(i as int, final(dbs).dbs@[i as int])
                    &&& final(dbs).names() == old(dbs).names().insert(i as int, name@)
                    &&& tree.kv().contains_key(KeyV::Catalog) ==> final(dbs).dbs@[i as int].tree.kv()
                        == tree.kv()
                    &&& !tree.kv().contains_key(KeyV::Catalog) ==> final(dbs).dbs@[i as int].tree.kv()
                        == tree.kv().insert(KeyV::Catalog, EntryV::Names(Seq::empty()))
                }
            },
            Err(_) => true,
        },
{
    match get_db(dbs, name) {
        Ok(i) => {
            proof {
                assert(dbs.names()[i as int] == name@);
            }
            Ok(i)
        },
        Err(_) => {
            let d = DB::new(name, tree);
            let p = sorted_position(dbs, name);
            dbs.dbs.insert(p, d);
            proof {
                let n0 = old(dbs).names();
                let n1 = dbs.names();
                assert(n1 =~= n0.insert(p as int, name@));
                if p < n0.len() {
                    lemma_lex_total(n0[p as int], name@);
                }
                assert forall|a: int, b: int| 0 <= a < b < n1.len() implies lex_le(
                    #[trigger] n1[a],
                    #[trigger] n1[b],
                ) && n1[a] != n1[b] by {
                    if b < p {
                        assert(n1[a] == n0[a] && n1[b] == n0[b]);
                    } else if b == p {
                        assert(n1[a] == n0[a]);
                        assert(n0.contains(n0[a]));
                    } else if a > p {
                        assert(n1[a] == n0[a - 1] && n1[b] == n0[b - 1]);
                    } else if a == p {
                        assert(n1[b] == n0[b - 1]);
                        assert(n0.contains(n0[b - 1]));
                        if b - 1 > p {
                            assert(lex_le(n0[p as int], n0[b - 1]));
                            lemma_lex_trans(name@, n0[p as int], n0[b - 1]);
                        }
                    } else {
                        assert(n1[a] == n0[a] && n1[b] == n0[b - 1]);
                        assert(lex_le(n0[a], name@));
                        if b - 1 > p {
                            assert(lex_le(n0[p as int], n0[b - 1]));
                            lemma_lex_trans(name@, n0[p as int], n0[b - 1]);
                        }
                        lemma_lex_trans(n0[a], name@, n0[b - 1]);
                    }
                }
            }
            Ok(p)
        },
    }
}

} // verus!
