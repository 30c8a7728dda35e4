use vstd::prelude::*;

use crate::error::DBError;
use crate::schema::{fits, values_view, Schema};
use crate::store::{copy_ids, copy_values, Entry, EntryV, GetSet, Key, KeyV};
use crate::types::{DBValue, ValueV};

verus! {

/// A record: its identifier and its values in column order.
#[derive(Clone, Debug)]
pub struct Record {
    pub ident: u64,
    pub value: Vec<DBValue>,
}

impl View for Record {
    type V = (u64, Seq<ValueV>);

    open spec fn view(&self) -> (u64, Seq<ValueV>) {
        (self.ident, values_view(self.value@))
    }
}

/// A table's name and schema.
#[derive(Clone, Debug)]
pub struct TableInfo {
    pub name: String,
    pub schema: Schema,
}

/// A handle on one table: its name, its schema and its index of record identifiers,
/// as they are held in a store that each operation is handed.
#[derive(Clone, Debug)]
pub struct Table {
    pub name: String,
    pub schema: Schema,
    pub records: Vec<u64>,
}

/// The values stored for record `id` (empty when there are none).
pub open spec fn row_of(kv: Map<KeyV, EntryV>, id: u64) -> Seq<ValueV> {
    match kv[KeyV::Row(id)] {
        EntryV::Row(v) => v,
        _ => Seq::empty(),
    }
}

/// The store holds values for record `id`.
pub open spec fn has_row(kv: Map<KeyV, EntryV>, id: u64) -> bool {
    kv.contains_key(KeyV::Row(id)) && kv[KeyV::Row(id)] is Row
}

/// The keys that belong to table `name` with records `ids`.
pub open spec fn footprint(name: Seq<char>, ids: Seq<u64>) -> Set<KeyV> {
    Set::new(
        |k: KeyV|
            k == KeyV::Index(name) || k == KeyV::Layout(name) || (k is Row && ids.contains(
                k->Row_0,
            )),
    )
}

/// `kv1` agrees with `kv0` on every key outside `keys`.
pub open spec fn same_outside(
    kv0: Map<KeyV, EntryV>,
    kv1: Map<KeyV, EntryV>,
    keys: Set<KeyV>,
) -> bool {
    kv1.remove_keys(keys) == kv0.remove_keys(keys)
}

/// `kv` after record `k` with `values` is added to table `name`, whose index was `ids`.
pub open spec fn record_added(
    kv: Map<KeyV, EntryV>,
    name: Seq<char>,
    ids: Seq<u64>,
    k: u64,
    values: Seq<ValueV>,
) -> Map<KeyV, EntryV> {
    kv.insert(KeyV::Row(k), EntryV::Row(values)).insert(KeyV::Index(name), EntryV::Index(ids.push(k)))
}

/// `kv` after record `k` is given `values`.
pub open spec fn record_updated(kv: Map<KeyV, EntryV>, k: u64, values: Seq<ValueV>) -> Map<
    KeyV,
    EntryV,
> {
    kv.insert(KeyV::Row(k), EntryV::Row(values))
}

/// The position of `id` in `ids`.
pub open spec fn id_position(ids: Seq<u64>, id: u64) -> int {
    choose|i: int| 0 <= i < ids.len() && ids[i] == id
}

/// In a sequence without duplicates, the position of `ids[i]` is `i`.
pub proof fn lemma_id_position(ids: Seq<u64>, i: int)
    requires
        ids.no_duplicates(),
        0 <= i < ids.len(),
    ensures
        id_position(ids, ids[i]) == i,
{
    assert(0 <= i < ids.len() && ids[i] == ids[i]);
    let q = id_position(ids, ids[i]);
    assert(ids[q] == ids[i]);
}

impl Table {
    /// The store holds this table as it is: its index, its schema, and for every
    /// identifier of the index a record with one value per column.
    pub open spec fn wf_in(&self, kv: Map<KeyV, EntryV>) -> bool {
        &&& kv.contains_key(KeyV::Index(self.name@))
        &&& kv[KeyV::Index(self.name@)] == EntryV::Index(self.records@)
        &&& kv.contains_key(KeyV::Layout(self.name@))
        &&& kv[KeyV::Layout(self.name@)] == EntryV::Layout(self.schema@)
        &&& self.records@.no_duplicates()
        &&& forall|i: int|
            0 <= i < self.records@.len() ==> has_row(kv, #[trigger] self.records@[i]) && row_of(
                kv,
                self.records@[i],
            ).len() == self.schema@.len()
    }

    /// The records of the table in index order.
    pub open spec fn rows(&self, kv: Map<KeyV, EntryV>) -> Seq<(u64, Seq<ValueV>)> {
        self.records@.map_values(|id: u64| (id, row_of(kv, id)))
    }

    /// A handle with the given name, schema and index.
    pub fn new(name: &str, schema: Schema, records: Vec<u64>) -> (r: Table)
        ensures
            r.name@ == name@,
            r.schema@ == schema@,
            r.records@ == records@,
    {
        Table { name: name.to_string(), schema, records }
    }

    /// Writes the index and the schema to the store.
    pub fn update<KV: GetSet>(&self, db: &mut KV)
        ensures
            final(db).kv() == old(db).kv().insert(
                KeyV::Index(self.name@),
                EntryV::Index(self.records@),
            ).insert(KeyV::Layout(self.name@), EntryV::Layout(self.schema@)),
    {
        db.set_unsafe(&Key::Index(self.name.clone()), Entry::Index(copy_ids(&self.records)));
        db.set_unsafe(&Key::Layout(self.name.clone()), Entry::Layout(self.schema.duplicate()));
    }

    /// The table's name and schema.
    pub fn get_info(&self) -> (r: TableInfo)
        ensures
            r.name@ == self.name@,
            r.schema@ == self.schema@,
    {
        TableInfo { name: self.name.clone(), schema: self.schema.duplicate() }
    }

    /// The values of the `i`-th record of the index.
    pub(crate) fn read_row<KV: GetSet>(&self, db: &KV, i: usize) -> (r: Vec<DBValue>)
        requires
            self.wf_in(db.kv()),
            i < self.records@.len(),
        ensures
            values_view(r@) == row_of(db.kv(), self.records@[i as int]),
    {
        match db.get_unsafe(&Key::Row(self.records[i])) {
            Some(Entry::Row(v)) => v,
            _ => Vec::new(),
        }
    }

    /// The position of `ident` in the index.
    fn find_record(&self, ident: u64) -> (r: Option<usize>)
        requires
            self.records@.no_duplicates(),
        ensures
            match r {
                Some(p) => p < self.records@.len() && self.records@[p as int] == ident
                    && id_position(self.records@, ident) == p,
                None => !self.records@.contains(ident),
            },
    {
        let mut i: usize = 0;
        while i < self.records.len()
            invariant
                self.records@.no_duplicates(),
                i <= self.records@.len(),
                forall|j: int| 0 <= j < i ==> self.records@[j] != ident,
            decreases self.records@.len() - i,
        {
            if self.records[i] == ident {
                proof {
                    lemma_id_position(self.records@, i as int);
                }
                return Some(i);
            }
            i = i + 1;
        }
        None
    }

    /// Every record in index order.
    pub fn get_records<KV: GetSet>(&self, db: &KV) -> (r: Vec<Record>)
        requires
            self.wf_in(db.kv()),
        ensures
            r@.map_values(|x: Record| x@) == self.rows(db.kv()),
    {
        let mut out: Vec<Record> = Vec::new();
        let mut i: usize = 0;
        while i < self.records.len()
            invariant
                self.wf_in(db.kv()),
                i <= self.records@.len(),
                out@.len() == i,
                forall|j: int| 0 <= j < i ==> (#[trigger] out@[j])@ == self.rows(db.kv())[j],
            decreases self.records@.len() - i,
        {
            let value = self.read_row(db, i);
            out.push(Record { ident: self.records[i], value });
            i = i + 1;
        }
        assert(out@.map_values(|x: Record| x@) =~= self.rows(db.kv()));
        out
    }

    /// Stores `value` as a new record under the unused identifier `ident`.
    pub fn insert_fresh<KV: GetSet>(&mut self, db: &mut KV, ident: u64, value: &[DBValue])
        requires
            old(self).wf_in(old(db).kv()),
            !old(db).kv().contains_key(KeyV::Row(ident)),
            fits(old(self).schema@, values_view(value@)),
        ensures
            final(self).wf_in(final(db).kv()),
            final(self).name == old(self).name,
            final(self).schema == old(self).schema,
            final(self).records@ == old(self).records@.push(ident),
            final(db).kv() == record_added(
                old(db).kv(),
                old(self).name@,
                old(self).records@,
                ident,
                values_view(value@),
            ),
    {
        let ghost kv0 = db.kv();
        proof {
            assert(!self.records@.contains(ident)) by {
                if self.records@.contains(ident) {
                    let j = choose|j: int| 0 <= j < self.records@.len() && self.records@[j] == ident;
                    assert(has_row(kv0, self.records@[j]));
                }
            }
        }
        db.set_unsafe(&Key::Row(ident), Entry::Row(copy_values(value)));
        self.records.push(ident);
        db.set_unsafe(&Key::Index(self.name.clone()), Entry::Index(copy_ids(&self.records)));
        let ghost kv1 = db.kv();
        proof {
            assert forall|i: int| 0 <= i < self.records@.len() implies has_row(
                kv1,
                #[trigger] self.records@[i],
            ) && row_of(kv1, self.records@[i]).len() == self.schema@.len() by {
                if i < self.records@.len() - 1 {
                    assert(old(self).records@[i] == self.records@[i]);
                    assert(has_row(kv0, old(self).records@[i]));
                }
            }
        }
    }

    /// Adds a record under a freshly drawn identifier, which it returns.
    /// The identifier is drawn at random and drawn again while it is in use.
    pub fn add_record<KV: GetSet>(&mut self, db: &mut KV, value: &[DBValue]) -> (r: Result<
        u64,
        DBError,
    >)
        requires
            old(self).wf_in(old(db).kv()),
        ensures
            final(self).wf_in(final(db).kv()),
            final(self).name == old(self).name,
            final(self).schema == old(self).schema,
            r == Err::<u64, DBError>(DBError::TypeMismatch) <==> !fits(
                old(self).schema@,
                values_view(value@),
            ),
            match r {
                Ok(k) => {
                    &&& !old(db).kv().contains_key(KeyV::Row(k))
                    &&& final(self).records@ == old(self).records@.push(k)
                    &&& final(db).kv() == record_added(
                        old(db).kv(),
                        old(self).name@,
                        old(self).records@,
                        k,
                        values_view(value@),
                    )
                },
                Err(e) => {
                    &&& e == DBError::TypeMismatch || e == DBError::StoreError
                    &&& final(self).records == old(self).records
                    &&& final(db).kv() == old(db).kv()
                },
            },
    {
        if !self.schema.match_record(value) {
            return Err(DBError::TypeMismatch);
        }
        let mut draws: u64 = 0;
        while draws < u64::MAX
            invariant
                self.wf_in(db.kv()),
                self == old(self),
                db.kv() == old(db).kv(),
                fits(self.schema@, values_view(value@)),
            decreases u64::MAX - draws,
        {
            let k = random_ident();
            if !db.has_key(&Key::Row(k)) {
                self.insert_fresh(db, k, value);
                return Ok(k);
            }
            draws = draws + 1;
        }
        Err(DBError::StoreError)
    }

    /// Overwrites the values of record `ident`.
    pub fn upd_record<KV: GetSet>(&mut self, db: &mut KV, ident: u64, value: &[DBValue]) -> (r:
        Result<(), DBError>)
        requires
            old(self).wf_in(old(db).kv()),
        ensures
            *final(self) == *old(self),
            final(self).wf_in(final(db).kv()),
            !old(self).records@.contains(ident) ==> r == Err::<(), DBError>(
                DBError::RecordNotFound,
            ),
            old(self).records@.contains(ident) && !fits(
                old(self).schema@,
                values_view(value@),
            ) ==> r == Err::<(), DBError>(DBError::TypeMismatch),
            r is Ok <==> old(self).records@.contains(ident) && fits(
                old(self).schema@,
                values_view(value@),
            ),
            r is Ok ==> final(db).kv() == record_updated(old(db).kv(), ident, values_view(value@)),
            r is Err ==> final(db).kv() == old(db).kv(),
    {
        if self.find_record(ident).is_none() {
            return Err(DBError::RecordNotFound);
        }
        if !self.schema.match_record(value) {
            return Err(DBError::TypeMismatch);
        }
        let ghost kv0 = db.kv();
        db.set_unsafe(&Key::Row(ident), Entry::Row(copy_values(value)));
        proof {
            let kv1 = db.kv();
            assert forall|i: int| 0 <= i < self.records@.len() implies has_row(
                kv1,
                #[trigger] self.records@[i],
            ) && row_of(kv1, self.records@[i]).len() == self.schema@.len() by {
                assert(has_row(kv0, self.records@[i]));
            }
        }
        Ok(())
    }

    /// Removes record `ident` from the index and from the store.
    pub fn del_record<KV: GetSet>(&mut self, db: &mut KV, ident: u64) -> (r: Result<(), DBError>)
        requires
            old(self).wf_in(old(db).kv()),
        ensures
            final(self).wf_in(final(db).kv()),
            final(self).name == old(self).name,
            final(self).schema == old(self).schema,
            r is Ok <==> old(self).records@.contains(ident),
            r is Err ==> r == Err::<(), DBError>(DBError::RecordNotFound) && *final(self) == *old(self) && final(db).kv() == old(db).kv(),
            r is Ok ==> final(self).records@ == old(self).records@.remove(
                id_position(old(self).records@, ident),
            ) && final(db).kv() == old(db).kv().insert(
                KeyV::Index(old(self).name@),
                EntryV::Index(final(self).records@),
            ).remove(KeyV::Row(ident)),
    {
        let p = match self.find_record(ident) {
            Some(p) => p,
            None => {
                return Err(DBError::RecordNotFound);
            },
        };
        let ghost kv0 = db.kv();
        let ghost ids0 = self.records@;
        self.records.remove(p);
        self.update(db);
        let ghost kv_mid = db.kv();
        assert(kv_mid =~= kv0.insert(KeyV::Index(self.name@), EntryV::Index(self.records@)));
        db.del(&Key::Row(ident));
        proof {
            let kv1 = db.kv();
            assert forall|i: int| 0 <= i < self.records@.len() implies has_row(
                kv1,
                #[trigger] self.records@[i],
            ) && row_of(kv1, self.records@[i]).len() == self.schema@.len() by {
                let j = if i < p {
                    i
                } else {
                    i + 1
                };
                assert(self.records@[i] == ids0[j]);
                assert(has_row(kv0, ids0[j]));
                assert(ids0[j] != ids0[p as int]);
            }
            assert forall|a: int, b: int|
                0 <= a < self.records@.len() && 0 <= b < self.records@.len() && a != b
                    implies self.records@[a] != self.records@[b] by {
                let a1 = if a < p {
                    a
                } else {
                    a + 1
                };
                let b1 = if b < p {
                    b
                } else {
                    b + 1
                };
                assert(ids0[a1] != ids0[b1]);
            }
        }
        Ok(())
    }

    /// Removes the record at position `idx` of the index.
    pub fn del_record_by_idx<KV: GetSet>(&mut self, db: &mut KV, idx: u64) -> (r: Result<
        (),
        DBError,
    >)
        requires
            old(self).wf_in(old(db).kv()),
        ensures
            final(self).wf_in(final(db).kv()),
            final(self).name == old(self).name,
            final(self).schema == old(self).schema,
            r is Ok <==> idx < old(self).records@.len(),
            r is Err ==> r == Err::<(), DBError>(DBError::RecordNotFound) && *final(self) == *old(self) && final(db).kv() == old(db).kv(),
            r is Ok ==> final(self).records@ == old(self).records@.remove(idx as int) && final(db).kv() == old(db).kv().insert(
                KeyV::Index(old(self).name@),
                EntryV::Index(final(self).records@),
            ).remove(KeyV::Row(old(self).records@[idx as int])),
    {
        if idx >= self.records.len() as u64 {
            return Err(DBError::RecordNotFound);
        }
        let rid = self.records[idx as usize];
        proof {
            lemma_id_position(self.records@, idx as int);
        }
        self.del_record(db, rid)
    }

    /// Overwrites the values of the record at position `idx` of the index.
    pub fn upd_record_by_idx<KV: GetSet>(&mut self, db: &mut KV, idx: u64, value: &[DBValue]) -> (r:
        Result<(), DBError>)
        requires
            old(self).wf_in(old(db).kv()),
        ensures
            *final(self) == *old(self),
            final(self).wf_in(final(db).kv()),
            idx >= old(self).records@.len() ==> r == Err::<(), DBError>(DBError::RecordNotFound),
            idx < old(self).records@.len() && !fits(old(self).schema@, values_view(value@))
                ==> r == Err::<(), DBError>(DBError::TypeMismatch),
            r is Ok <==> idx < old(self).records@.len() && fits(
                old(self).schema@,
                values_view(value@),
            ),
            r is Ok ==> final(db).kv() == record_updated(
                old(db).kv(),
                old(self).records@[idx as int],
                values_view(value@),
            ),
            r is Err ==> final(db).kv() == old(db).kv(),
    {
        if idx >= self.records.len() as u64 {
            return Err(DBError::RecordNotFound);
        }
        let rid = self.records[idx as usize];
        self.upd_record(db, rid, value)
    }
}

/// Relies on rand's `thread_rng().gen::<u64>()`: any 64-bit value may come back.
#[verifier::external_body]
fn random_ident() -> u64 {
    rand::Rng::gen::<u64>(&mut rand::thread_rng())
}

} // verus!
