use vstd::prelude::*;

use crate::columns::{moved, rows_moved, rows_with_column, rows_without_column};
use crate::db::{catalog, index_of, table_present, table_removed};
use crate::schema::column_position;
use crate::store::{EntryV, KeyV};
use crate::table::{record_added, record_updated, row_of};
use crate::types::{Type, ValueV};

verus! {

/// Every type is a subtype of itself.
pub proof fn lemma_subtype_reflexive(t: Type)
    ensures
        t.subtype_of(t),
{
}

/// Subtyping is not symmetric: a narrower interval is a subtype of a wider one, and
/// not the other way round.
pub proof fn lemma_subtype_not_symmetric()
    ensures
        exists|a: Type, b: Type| a.subtype_of(b) && !b.subtype_of(a),
{
    let a = Type::CharInvl('2', '4');
    let b = Type::CharInvl('0', '9');
    assert(a.subtype_of(b) && !b.subtype_of(a));
}

/// A record read back by the identifier it was added under holds the values it was
/// added with, and it comes last in the table's records.
pub proof fn lemma_insert_read_back(
    kv: Map<KeyV, EntryV>,
    name: Seq<char>,
    ids: Seq<u64>,
    k: u64,
    values: Seq<ValueV>,
)
    ensures
        ({
            let kv1 = record_added(kv, name, ids, k, values);
            &&& kv1.contains_key(KeyV::Row(k))
            &&& row_of(kv1, k) == values
            &&& kv1[KeyV::Index(name)] == EntryV::Index(ids.push(k))
            &&& ids.push(k).last() == k
        }),
{
    let kv1 = record_added(kv, name, ids, k, values);
    assert(KeyV::Row(k) != KeyV::Index(name));
    assert(kv1[KeyV::Row(k)] == EntryV::Row(values));
}

/// Updating a record twice with the same values stores what updating it once does.
pub proof fn lemma_update_idempotent(kv: Map<KeyV, EntryV>, k: u64, values: Seq<ValueV>)
    ensures
        record_updated(record_updated(kv, k, values), k, values) == record_updated(kv, k, values),
        row_of(record_updated(kv, k, values), k) == values,
{
    assert(record_updated(record_updated(kv, k, values), k, values) =~= record_updated(
        kv,
        k,
        values,
    ));
}

/// Adding a column at `idx` and then deleting the column of that name gives back the
/// schema and every record as they were.
pub proof fn lemma_add_then_delete_column(
    schema: Seq<(Seq<char>, Type)>,
    rows: Seq<(u64, Seq<ValueV>)>,
    column: (Seq<char>, Type),
    idx: int,
)
    requires
        0 <= idx <= schema.len(),
        column_position(schema, column.0) is None,
        forall|j: int| 0 <= j < rows.len() ==> (#[trigger] rows[j]).1.len() == schema.len(),
    ensures
        column_position(schema.insert(idx, column), column.0) == Some(idx),
        schema.insert(idx, column).remove(idx) == schema,
        rows_without_column(rows_with_column(rows, idx, column.1.default_of()), idx) == rows,
{
    let s1 = schema.insert(idx, column);
    assert forall|j: int| 0 <= j < idx implies s1[j].0 != column.0 by {
        assert(s1[j] == schema[j]);
    }
    crate::schema::lemma_column_position(s1, column.0, idx);
    assert(s1.remove(idx) =~= schema);
    let d = column.1.default_of();
    let back = rows_without_column(rows_with_column(rows, idx, d), idx);
    assert forall|j: int| 0 <= j < rows.len() implies back[j] == rows[j] by {
        assert(rows[j].1.insert(idx, d).remove(idx) =~= rows[j].1);
    }
    assert(back =~= rows);
}

/// After a table is removed, the store holds neither its index nor its schema nor any
/// record of its index, so the table can no longer be loaded.
pub proof fn lemma_removed_table_gone(kv: Map<KeyV, EntryV>, name: Seq<char>)
    ensures
        !table_present(table_removed(kv, name), name),
        !table_removed(kv, name).contains_key(KeyV::Index(name)),
        !table_removed(kv, name).contains_key(KeyV::Layout(name)),
        forall|j: int|
            0 <= j < index_of(kv, name).len() ==> !table_removed(kv, name).contains_key(
                KeyV::Row(#[trigger] index_of(kv, name)[j]),
            ),
{
    let ids = index_of(kv, name);
    assert forall|j: int| 0 <= j < ids.len() implies !table_removed(kv, name).contains_key(
        KeyV::Row(#[trigger] ids[j]),
    ) by {
        assert(ids.contains(ids[j]));
    }
}

/// Moving a column from `from` to `to` and then moving the column of that name back
/// to `from` gives back the schema and every record as they were.
pub proof fn lemma_move_then_move_back(
    schema: Seq<(Seq<char>, Type)>,
    rows: Seq<(u64, Seq<ValueV>)>,
    from: int,
    to: int,
)
    requires
        0 <= from < schema.len(),
        0 <= to < schema.len(),
        forall|j: int| 0 <= j < schema.len() && j != from ==> (#[trigger] schema[j]).0 != schema[from].0,
        forall|j: int| 0 <= j < rows.len() ==> (#[trigger] rows[j]).1.len() == schema.len(),
    ensures
        column_position(moved(schema, from, to), schema[from].0) == Some(to),
        moved(moved(schema, from, to), to, from) == schema,
        rows_moved(rows_moved(rows, from, to), to, from) == rows,
{
    let s1 = moved(schema, from, to);
    assert(s1[to] == schema[from]);
    assert forall|j: int| 0 <= j < to implies s1[j].0 != schema[from].0 by {
        let r = schema.remove(from);
        assert(s1[j] == r[j]);
        if j < from {
            assert(r[j] == schema[j]);
        } else {
            assert(r[j] == schema[j + 1]);
        }
    }
    crate::schema::lemma_column_position(s1, schema[from].0, to);
    lemma_moved_back(schema, from, to);
    let back = rows_moved(rows_moved(rows, from, to), to, from);
    assert forall|j: int| 0 <= j < rows.len() implies back[j] == rows[j] by {
        lemma_moved_back(rows[j].1, from, to);
    }
    assert(back =~= rows);
}

/// Moving an element from `from` to `to` and back gives the sequence back.
pub proof fn lemma_moved_back<A>(s: Seq<A>, from: int, to: int)
    requires
        0 <= from < s.len(),
        0 <= to < s.len(),
    ensures
        moved(moved(s, from, to), to, from) == s,
{
    let s1 = moved(s, from, to);
    assert(s1[to] == s[from]);
    assert(s1.remove(to) =~= s.remove(from));
    assert(moved(s1, to, from) =~= s);
}

/// Removing table `name` leaves another table's index and schema as they were, and
/// every record that the removed table's index does not list.
pub proof fn lemma_remove_keeps_other_tables(
    kv: Map<KeyV, EntryV>,
    name: Seq<char>,
    other: Seq<char>,
    id: u64,
)
    requires
        other != name,
    ensures
        ({
            let kv1 = table_removed(kv, name);
            &&& kv1.contains_key(KeyV::Index(other)) == kv.contains_key(KeyV::Index(other))
            &&& kv.contains_key(KeyV::Index(other)) ==> kv1[KeyV::Index(other)] == kv[KeyV::Index(
                other,
            )]
            &&& kv1.contains_key(KeyV::Layout(other)) == kv.contains_key(KeyV::Layout(other))
            &&& kv.contains_key(KeyV::Layout(other)) ==> kv1[KeyV::Layout(other)]
                == kv[KeyV::Layout(other)]
            &&& !index_of(kv, name).contains(id) ==> {
                &&& kv1.contains_key(KeyV::Row(id)) == kv.contains_key(KeyV::Row(id))
                &&& kv.contains_key(KeyV::Row(id)) ==> kv1[KeyV::Row(id)] == kv[KeyV::Row(id)]
            }
        }),
{
    let fp = crate::table::footprint(name, index_of(kv, name));
    let kv0 = kv.insert(KeyV::Catalog, EntryV::Names(catalog(kv).remove(catalog(kv).index_of(name))));
    assert(table_removed(kv, name) == kv0.remove_keys(fp));
    assert(!fp.contains(KeyV::Index(other)));
    assert(!fp.contains(KeyV::Layout(other)));
    if !index_of(kv, name).contains(id) {
        assert(!fp.contains(KeyV::Row(id)));
    }
}

} // verus!
