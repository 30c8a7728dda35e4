use vstd::prelude::*;

use crate::error::DBError;
use crate::schema::{column_position, copy_column, values_view, Column};
use crate::store::{copy_values, Entry, EntryV, GetSet, Key, KeyV};
use crate::table::{footprint, has_row, row_of, same_outside, Table};
use crate::types::{coerces, DBValue, RealOps, Type, ValueV};

verus! {

/// `kv` with `rows[j]` written as the values of record `ids[j]`, for each `j`.
pub open spec fn with_rows(
    kv: Map<KeyV, EntryV>,
    ids: Seq<u64>,
    rows: Seq<Seq<ValueV>>,
) -> Map<KeyV, EntryV>
    decreases ids.len(),
{
    if ids.len() == 0 || rows.len() == 0 {
        kv
    } else {
        with_rows(kv, ids.drop_last(), rows.drop_last()).insert(
            KeyV::Row(ids.last()),
            EntryV::Row(rows.last()),
        )
    }
}

/// Proves what `with_rows` holds: the new rows, and `kv` elsewhere.
pub proof fn lemma_with_rows(kv: Map<KeyV, EntryV>, ids: Seq<u64>, rows: Seq<Seq<ValueV>>)
    requires
        ids.len() == rows.len(),
        ids.no_duplicates(),
    ensures
        forall|j: int|
            0 <= j < ids.len() ==> with_rows(kv, ids, rows).contains_key(KeyV::Row(#[trigger] ids[j]))
                && with_rows(kv, ids, rows)[KeyV::Row(ids[j])] == EntryV::Row(rows[j]),
        forall|k: KeyV|
            !(k is Row && ids.contains(k->Row_0)) ==> (#[trigger] with_rows(
                kv,
                ids,
                rows,
            ).contains_key(k) == kv.contains_key(k) && with_rows(kv, ids, rows)[k] == kv[k]),
    decreases ids.len(),
{
    if ids.len() > 0 {
        let ids0 = ids.drop_last();
        let rows0 = rows.drop_last();
        assert(ids0.no_duplicates()) by {
            assert forall|a: int, b: int|
                0 <= a < ids0.len() && 0 <= b < ids0.len() && a != b implies ids0[a] != ids0[b] by {
                assert(ids[a] != ids[b]);
            }
        }
        lemma_with_rows(kv, ids0, rows0);
        assert forall|j: int| 0 <= j < ids.len() implies with_rows(kv, ids, rows).contains_key(
            KeyV::Row(#[trigger] ids[j]),
        ) && with_rows(kv, ids, rows)[KeyV::Row(ids[j])] == EntryV::Row(rows[j]) by {
            if j < ids.len() - 1 {
                assert(ids0[j] == ids[j]);
                assert(ids[j] != ids[ids.len() - 1]);
            }
        }
        assert forall|k: KeyV| !(k is Row && ids.contains(k->Row_0)) implies (#[trigger] with_rows(
            kv,
            ids,
            rows,
        ).contains_key(k) == kv.contains_key(k) && with_rows(kv, ids, rows)[k] == kv[k]) by {
            if k is Row && ids0.contains(k->Row_0) {
                let j = choose|j: int| 0 <= j < ids0.len() && ids0[j] == k->Row_0;
                assert(ids[j] == k->Row_0);
            }
            assert(k != KeyV::Row(ids.last()));
        }
    }
}

/// The records with `d` inserted at position `idx` of each.
pub open spec fn rows_with_column(rows: Seq<(u64, Seq<ValueV>)>, idx: int, d: ValueV) -> Seq<
    (u64, Seq<ValueV>),
> {
    rows.map_values(|r: (u64, Seq<ValueV>)| (r.0, r.1.insert(idx, d)))
}

/// The records with the value at position `idx` of each taken out.
pub open spec fn rows_without_column(rows: Seq<(u64, Seq<ValueV>)>, idx: int) -> Seq<
    (u64, Seq<ValueV>),
> {
    rows.map_values(|r: (u64, Seq<ValueV>)| (r.0, r.1.remove(idx)))
}

/// A sequence with its element at `from` moved to `to`.
pub open spec fn moved<A>(s: Seq<A>, from: int, to: int) -> Seq<A> {
    s.remove(from).insert(to, s[from])
}

/// The records with the value at position `from` of each moved to `to`.
pub open spec fn rows_moved(rows: Seq<(u64, Seq<ValueV>)>, from: int, to: int) -> Seq<
    (u64, Seq<ValueV>),
> {
    rows.map_values(|r: (u64, Seq<ValueV>)| (r.0, moved(r.1, from, to)))
}

/// `rows1` is `rows0` with the value at `idx` of each record coerced to `t`.
pub open spec fn rows_coerced(
    rows0: Seq<(u64, Seq<ValueV>)>,
    rows1: Seq<(u64, Seq<ValueV>)>,
    idx: int,
    t: Type,
) -> bool {
    &&& rows1.len() == rows0.len()
    &&& forall|j: int|
        0 <= j < rows0.len() ==> {
            &&& (#[trigger] rows1[j]).0 == rows0[j].0
            &&& rows1[j].1 == rows0[j].1.update(idx, rows1[j].1[idx])
            &&& coerces(rows0[j].1[idx], t, Some(rows1[j].1[idx]))
        }
}

/// Some record's value at `idx` may fail to coerce to `t`.
pub open spec fn some_coercion_fails(rows: Seq<(u64, Seq<ValueV>)>, idx: int, t: Type) -> bool {
    exists|j: int| 0 <= j < rows.len() && coerces((#[trigger] rows[j]).1[idx], t, None)
}

/// The schema's column names are distinct from `name` but at position `except`.
pub open spec fn name_free(schema: Seq<(Seq<char>, Type)>, name: Seq<char>, except: int) -> bool {
    forall|j: int| 0 <= j < schema.len() && j != except ==> (#[trigger] schema[j]).0 != name
}

/// Proves that moving commutes with taking views.
pub proof fn lemma_view_moved(row: Seq<DBValue>, from: int, to: int)
    requires
        0 <= from < row.len(),
        0 <= to < row.len(),
    ensures
        values_view(moved(row, from, to)) == moved(values_view(row), from, to),
{
    assert(values_view(row.remove(from)) =~= values_view(row).remove(from));
    assert(values_view(moved(row, from, to)) =~= moved(values_view(row), from, to));
}

impl Table {
    /// Writes `rows[j]` as the values of the `j`-th record, then the index and the schema.
    fn commit<KV: GetSet>(&self, db: &mut KV, rows: &Vec<Vec<DBValue>>)
        requires
            self.records@.no_duplicates(),
            rows@.len() == self.records@.len(),
            forall|j: int|
                0 <= j < rows@.len() ==> values_view((#[trigger] rows@[j])@).len()
                    == self.schema@.len(),
        ensures
            self.wf_in(final(db).kv()),
            forall|j: int|
                0 <= j < rows@.len() ==> row_of(final(db).kv(), #[trigger] self.records@[j])
                    == values_view(rows@[j]@),
            same_outside(
                old(db).kv(),
                final(db).kv(),
                footprint(self.name@, self.records@),
            ),
    {
        let ghost kv0 = db.kv();
        let ghost views = rows@.map_values(|r: Vec<DBValue>| values_view(r@));
        let mut i: usize = 0;
        while i < rows.len()
            invariant
                i <= rows@.len(),
                rows@.len() == self.records@.len(),
                views == rows@.map_values(|r: Vec<DBValue>| values_view(r@)),
                db.kv() == with_rows(
                    kv0,
                    self.records@.subrange(0, i as int),
                    views.subrange(0, i as int),
                ),
            decreases rows@.len() - i,
        {
            db.set_unsafe(&Key::Row(self.records[i]), Entry::Row(copy_values(rows[i].as_slice())));
            proof {
                let ids = self.records@.subrange(0, i + 1);
                let vs = views.subrange(0, i + 1);
                assert(ids.drop_last() =~= self.records@.subrange(0, i as int));
                assert(vs.drop_last() =~= views.subrange(0, i as int));
            }
            i = i + 1;
        }
        let ghost kvw = db.kv();
        proof {
            assert(self.records@.subrange(0, rows@.len() as int) =~= self.records@);
            assert(views.subrange(0, rows@.len() as int) =~= views);
            lemma_with_rows(kv0, self.records@, views);
        }
        self.update(db);
        proof {
            let kv1 = db.kv();
            assert forall|j: int| 0 <= j < rows@.len() implies row_of(
                kv1,
                #[trigger] self.records@[j],
            ) == values_view(rows@[j]@) && has_row(kv1, self.records@[j]) by {
                assert(kvw[KeyV::Row(self.records@[j])] == EntryV::Row(views[j]));
            }
            let fp = footprint(self.name@, self.records@);
            assert(kv1.remove_keys(fp) =~= kv0.remove_keys(fp)) by {
                assert forall|k: KeyV| !fp.contains(k) implies (kv1.contains_key(k)
                    == kv0.contains_key(k) && kv1[k] == kv0[k]) by {
                    assert(kvw.contains_key(k) == kv0.contains_key(k));
                }
            }
        }
    }

    /// Inserts `column` at position `idx` (at the end when none is given), and the
    /// column type's default value at that position of every record.
    pub fn add_column<KV: GetSet>(&mut self, db: &mut KV, column: &Column, idx: Option<usize>) -> (r:
        Result<(), DBError>)
        requires
            old(self).wf_in(old(db).kv()),
        ensures
            final(self).wf_in(final(db).kv()),
            final(self).name == old(self).name,
            final(self).records == old(self).records,
            ({
                let pos = match idx {
                    Some(p) => p as int,
                    None => old(self).schema@.len() as int,
                };
                let present = column_position(old(self).schema@, column.name@) is Some;
                &&& present ==> r == Err::<(), DBError>(DBError::ColumnExists)
                &&& !present && pos > old(self).schema@.len() ==> r == Err::<(), DBError>(
                    DBError::InvalidPosition,
                )
                &&& r is Ok <==> !present && pos <= old(self).schema@.len()
                &&& r is Ok ==> {
                    &&& final(self).schema@ == old(self).schema@.insert(pos, column@)
                    &&& final(self).rows(final(db).kv()) == rows_with_column(
                        old(self).rows(old(db).kv()),
                        pos,
                        column.ctype.default_of(),
                    )
                    &&& same_outside(
                        old(db).kv(),
                        final(db).kv(),
                        footprint(old(self).name@, old(self).records@),
                    )
                }
                &&& r is Err ==> *final(self) == *old(self) && final(db).kv() == old(db).kv()
            }),
    {
        let cur = self.schema.position(&column.name);
        let pos = match idx {
            Some(p) => p,
            None => self.schema.columns.len(),
        };
        if cur.is_some() {
            return Err(DBError::ColumnExists);
        }
        if pos > self.schema.columns.len() {
            return Err(DBError::InvalidPosition);
        }
        let ghost kv0 = db.kv();
        let ghost rows0 = self.rows(kv0);
        let d = column.ctype.defvalue();
        let mut newrs: Vec<Vec<DBValue>> = Vec::new();
        let mut i: usize = 0;
        while i < self.records.len()
            invariant
                self.wf_in(kv0),
                db.kv() == kv0,
                pos <= self.schema@.len(),
                d@ == column.ctype.default_of(),
                i <= self.records@.len(),
                newrs@.len() == i,
                forall|j: int|
                    0 <= j < i ==> values_view((#[trigger] newrs@[j])@) == row_of(
                        kv0,
                        self.records@[j],
                    ).insert(pos as int, d@),
            decreases self.records@.len() - i,
        {
            let mut row = self.read_row(db, i);
            let ghost before = row@;
            row.insert(pos, d.duplicate());
            assert(values_view(row@) =~= values_view(before).insert(pos as int, d@));
            newrs.push(row);
            i = i + 1;
        }
        let ghost s0 = self.schema@;
        self.schema.columns.insert(pos, copy_column(column));
        assert(self.schema@ =~= s0.insert(pos as int, column@));
        self.commit(db, &newrs);
        assert(self.rows(db.kv()) =~= rows_with_column(rows0, pos as int, d@));
        Ok(())
    }

    /// Removes column `column`, and its value from every record.
    #[verifier::rlimit(40)]
    pub fn del_column<KV: GetSet>(&mut self, db: &mut KV, column: String) -> (r: Result<
        (),
        DBError,
    >)
        requires
            old(self).wf_in(old(db).kv()),
        ensures
            final(self).wf_in(final(db).kv()),
            final(self).name == old(self).name,
            final(self).records == old(self).records,
            match column_position(old(self).schema@, column@) {
                None => r == Err::<(), DBError>(DBError::InvalidColumn) && *final(self) == *old(
                    self
                ) && final(db).kv() == old(db).kv(),
                Some(p) => {
                    &&& r is Ok
                    &&& final(self).schema@ == old(self).schema@.remove(p)
                    &&& final(self).rows(final(db).kv()) == rows_without_column(
                        old(self).rows(old(db).kv()),
                        p,
                    )
                    &&& same_outside(
                        old(db).kv(),
                        final(db).kv(),
                        footprint(old(self).name@, old(self).records@),
                    )
                },
            },
    {
        let pos = match self.schema.position(&column) {
            Some(p) => p,
            None => {
                return Err(DBError::InvalidColumn);
            },
        };
        let ghost kv0 = db.kv();
        let ghost rows0 = self.rows(kv0);
        let mut newrs: Vec<Vec<DBValue>> = Vec::new();
        let mut i: usize = 0;
        while i < self.records.len()
            invariant
                self.wf_in(kv0),
                db.kv() == kv0,
                pos < self.schema@.len(),
                i <= self.records@.len(),
                newrs@.len() == i,
                forall|j: int|
                    0 <= j < i ==> values_view((#[trigger] newrs@[j])@) == row_of(
                        kv0,
                        self.records@[j],
                    ).remove(pos as int),
            decreases self.records@.len() - i,
        {
            let mut row = self.read_row(db, i);
            let ghost before = row@;
            row.remove(pos);
            assert(values_view(row@) =~= values_view(before).remove(pos as int));
            newrs.push(row);
            i = i + 1;
        }
        let ghost s0 = self.schema@;
        self.schema.columns.remove(pos);
        assert(self.schema@ =~= s0.remove(pos as int));
        self.commit(db, &newrs);
        assert(self.rows(db.kv()) =~= rows_without_column(rows0, pos as int));
        Ok(())
    }

    /// Moves a column, and the matching value of every record, to position `idx`.
    #[verifier::rlimit(40)]
    pub fn move_column<KV: GetSet>(&mut self, db: &mut KV, column: String, idx: usize) -> (r:
        Result<(), DBError>)
        requires
            old(self).wf_in(old(db).kv()),
        ensures
            final(self).wf_in(final(db).kv()),
            final(self).name == old(self).name,
            final(self).records == old(self).records,
            match column_position(old(self).schema@, column@) {
                None => r == Err::<(), DBError>(DBError::InvalidColumn) && *final(self) == *old(
                    self
                ) && final(db).kv() == old(db).kv(),
                Some(p) => if idx >= old(self).schema@.len() {
                    r == Err::<(), DBError>(DBError::InvalidPosition) && *final(self) == *old(
                        self
                    ) && final(db).kv() == old(db).kv()
                } else {
                    &&& r is Ok
                    &&& final(self).schema@ == moved(old(self).schema@, p, idx as int)
                    &&& final(self).rows(final(db).kv()) == rows_moved(
                        old(self).rows(old(db).kv()),
                        p,
                        idx as int,
                    )
                    &&& same_outside(
                        old(db).kv(),
                        final(db).kv(),
                        footprint(old(self).name@, old(self).records@),
                    )
                },
            },
    {
        let from = match self.schema.position(&column) {
            Some(p) => p,
            None => {
                return Err(DBError::InvalidColumn);
            },
        };
        if idx >= self.schema.columns.len() {
            return Err(DBError::InvalidPosition);
        }
        let ghost kv0 = db.kv();
        let ghost rows0 = self.rows(kv0);
        let mut newrs: Vec<Vec<DBValue>> = Vec::new();
        let mut i: usize = 0;
        while i < self.records.len()
            invariant
                self.wf_in(kv0),
                db.kv() == kv0,
                from < self.schema@.len(),
                idx < self.schema@.len(),
                i <= self.records@.len(),
                newrs@.len() == i,
                forall|j: int|
                    0 <= j < i ==> values_view((#[trigger] newrs@[j])@) == moved(
                        row_of(kv0, self.records@[j]),
                        from as int,
                        idx as int,
                    ),
            decreases self.records@.len() - i,
        {
            let mut row = self.read_row(db, i);
            let ghost before = row@;
            let v = row.remove(from);
            row.insert(idx, v);
            proof {
                lemma_view_moved(before, from as int, idx as int);
                assert(row@ =~= moved(before, from as int, idx as int));
            }
            newrs.push(row);
            i = i + 1;
        }
        let ghost s0 = self.schema@;
        let c = self.schema.columns.remove(from);
        self.schema.columns.insert(idx, c);
        assert(self.schema@ =~= moved(s0, from as int, idx as int));
        self.commit(db, &newrs);
        proof {
            let rows1 = self.rows(db.kv());
            let want = rows_moved(rows0, from as int, idx as int);
            assert forall|j: int| 0 <= j < rows1.len() implies rows1[j] == want[j] by {
                assert(rows1[j].1 == values_view(newrs@[j]@));
            }
            assert(rows1 =~= want);
        }
        Ok(())
    }

    /// Renames and retypes a column, coercing its value in every record; either every
    /// record coerces and all is written, or nothing is.
    pub fn upd_column<KV: GetSet, R: RealOps>(
        &mut self,
        db: &mut KV,
        old_name: String,
        new: &Column,
        reals: &R,
    ) -> (r: Result<(), DBError>)
        requires
            old(self).wf_in(old(db).kv()),
        ensures
            final(self).wf_in(final(db).kv()),
            final(self).name == old(self).name,
            final(self).records == old(self).records,
            r is Err ==> *final(self) == *old(self) && final(db).kv() == old(db).kv(),
            match column_position(old(self).schema@, old_name@) {
                None => r == Err::<(), DBError>(DBError::InvalidColumn),
                Some(p) => {
                    &&& !name_free(old(self).schema@, new.name@, p) ==> r == Err::<(), DBError>(
                        DBError::ColumnExists,
                    )
                    &&& name_free(old(self).schema@, new.name@, p) && !some_coercion_fails(
                        old(self).rows(old(db).kv()),
                        p,
                        new.ctype,
                    ) ==> r is Ok
                    &&& r == Err::<(), DBError>(DBError::TypeMismatch) ==> name_free(
                        old(self).schema@,
                        new.name@,
                        p,
                    ) && some_coercion_fails(old(self).rows(old(db).kv()), p, new.ctype)
                    &&& r == Err::<(), DBError>(DBError::ColumnExists) ==> !name_free(
                        old(self).schema@,
                        new.name@,
                        p,
                    )
                    &&& r is Err ==> r == Err::<(), DBError>(DBError::ColumnExists) || r == Err::<
                        (),
                        DBError,
                    >(DBError::TypeMismatch)
                    &&& r is Ok ==> {
                        &&& name_free(old(self).schema@, new.name@, p)
                        &&& final(self).schema@ == old(self).schema@.update(p, new@)
                        &&& rows_coerced(
                            old(self).rows(old(db).kv()),
                            final(self).rows(final(db).kv()),
                            p,
                            new.ctype,
                        )
                        &&& same_outside(
                            old(db).kv(),
                            final(db).kv(),
                            footprint(old(self).name@, old(self).records@),
                        )
                    }
                },
            },
    {
        let pos = match self.schema.position(&old_name) {
            Some(p) => p,
            None => {
                return Err(DBError::InvalidColumn);
            },
        };
        let mut k: usize = 0;
        while k < self.schema.columns.len()
            invariant
                *self == *old(self),
                db.kv() == old(db).kv(),
                self.wf_in(db.kv()),
                pos < self.schema@.len(),
                column_position(self.schema@, old_name@) == Some(pos as int),
                k <= self.schema@.len(),
                forall|j: int| 0 <= j < k && j != pos ==> (#[trigger] self.schema@[j]).0 != new.name@,
            decreases self.schema@.len() - k,
        {
            if k != pos && self.schema.columns[k].name == new.name {
                assert(self.schema@[k as int].0 == new.name@);
                return Err(DBError::ColumnExists);
            }
            k = k + 1;
        }
        let ghost kv0 = db.kv();
        let ghost rows0 = self.rows(kv0);
        let mut newrs: Vec<Vec<DBValue>> = Vec::new();
        let mut i: usize = 0;
        while i < self.records.len()
            invariant
                self.wf_in(kv0),
                db.kv() == kv0,
                rows0 == self.rows(kv0),
                *self == *old(self),
                kv0 == old(db).kv(),
                name_free(self.schema@, new.name@, pos as int),
                column_position(self.schema@, old_name@) == Some(pos as int),
                pos < self.schema@.len(),
                i <= self.records@.len(),
                newrs@.len() == i,
                forall|j: int|
                    0 <= j < i ==> {
                        let r0 = row_of(kv0, self.records@[j]);
                        let r1 = values_view((#[trigger] newrs@[j])@);
                        &&& r1 == r0.update(pos as int, r1[pos as int])
                        &&& coerces(r0[pos as int], new.ctype, Some(r1[pos as int]))
                    },
            decreases self.records@.len() - i,
        {
            let mut row = self.read_row(db, i);
            let ghost before = values_view(row@);
            let coerced = row[pos].coerce(&new.ctype, reals);
            match coerced {
                Some(v) => {
                    row.set(pos, v);
                    assert(values_view(row@) =~= before.update(
                        pos as int,
                        values_view(row@)[pos as int],
                    ));
                    newrs.push(row);
                },
                None => {
                    assert(rows0[i as int].1 == before);
                    assert(coerces(rows0[i as int].1[pos as int], new.ctype, None));
                    assert(some_coercion_fails(rows0, pos as int, new.ctype));
                    return Err(DBError::TypeMismatch);
                },
            }
            i = i + 1;
        }
        let ghost s0 = self.schema@;
        self.schema.columns.set(pos, copy_column(new));
        assert(self.schema@ =~= s0.update(pos as int, new@));
        self.commit(db, &newrs);
        proof {
            let rows1 = self.rows(db.kv());
            assert forall|j: int| 0 <= j < rows0.len() implies {
                &&& (#[trigger] rows1[j]).0 == rows0[j].0
                &&& rows1[j].1 == rows0[j].1.update(pos as int, rows1[j].1[pos as int])
                &&& coerces(rows0[j].1[pos as int], new.ctype, Some(rows1[j].1[pos as int]))
            } by {
                assert(rows1[j].1 == values_view(newrs@[j]@));
            }
        }
        Ok(())
    }
}

} // verus!
