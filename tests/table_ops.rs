use tabledb::db::{get_db, get_dbs, get_or_create_db, Registry, DB};
use tabledb::error::DBError;
use tabledb::schema::{Column, Schema};
use tabledb::store::{GetSet, Key, MemStore};
use tabledb::table::Table;
use tabledb::types::{DBValue, RealOps, Type};

struct Floats;

impl RealOps for Floats {
    fn from_int(&self, i: i64) -> u64 {
        (i as f64).to_bits()
    }

    fn to_int(&self, bits: u64) -> i64 {
        f64::from_bits(bits) as i64
    }

    fn to_text(&self, bits: u64) -> String {
        f64::from_bits(bits).to_string()
    }

    fn parse(&self, s: &str) -> Option<u64> {
        s.parse::<f64>().ok().map(|f| f.to_bits())
    }
}

fn col(name: &str, ctype: Type) -> Column {
    Column { name: name.to_string(), ctype }
}

fn s(text: &str) -> DBValue {
    DBValue::Str(text.to_string())
}

fn fresh_db() -> DB<MemStore> {
    DB::new("d", MemStore::new())
}

fn people(db: &mut DB<MemStore>) -> Table {
    let schema = Schema { columns: vec![col("id", Type::Integer), col("name", Type::Str)] };
    db.add_table("t", &schema).unwrap();
    db.get_table("t").unwrap()
}

fn values_of(t: &Table, db: &DB<MemStore>) -> Vec<Vec<DBValue>> {
    t.get_records(&db.tree).into_iter().map(|r| r.value).collect()
}

#[test]
fn scenario_sort_then_delete_column() {
    let mut db = fresh_db();
    let mut t = people(&mut db);
    let k1 = t.add_record(&mut db.tree, &[DBValue::Integer(1), s("a")]).unwrap();
    let k2 = t.add_record(&mut db.tree, &[DBValue::Integer(2), s("b")]).unwrap();
    let sorted = t.sort_records(&db.tree, "id".to_string()).unwrap();
    assert_eq!(sorted.len(), 2);
    assert_eq!(sorted[0].ident, k1);
    assert_eq!(sorted[0].value, vec![DBValue::Integer(1), s("a")]);
    assert_eq!(sorted[1].ident, k2);
    assert_eq!(sorted[1].value, vec![DBValue::Integer(2), s("b")]);
    t.del_column(&mut db.tree, "name".to_string()).unwrap();
    assert_eq!(
        values_of(&t, &db),
        vec![vec![DBValue::Integer(1)], vec![DBValue::Integer(2)]]
    );
}

#[test]
fn sort_orders_descending_input() {
    let mut db = fresh_db();
    let mut t = people(&mut db);
    t.add_record(&mut db.tree, &[DBValue::Integer(5), s("e")]).unwrap();
    t.add_record(&mut db.tree, &[DBValue::Integer(-3), s("c")]).unwrap();
    t.add_record(&mut db.tree, &[DBValue::Integer(2), s("b")]).unwrap();
    let ids: Vec<DBValue> = t
        .sort_records(&db.tree, "id".to_string())
        .unwrap()
        .into_iter()
        .map(|r| r.value[0].clone())
        .collect();
    assert_eq!(ids, vec![DBValue::Integer(-3), DBValue::Integer(2), DBValue::Integer(5)]);
    let names: Vec<DBValue> = t
        .sort_records(&db.tree, "name".to_string())
        .unwrap()
        .into_iter()
        .map(|r| r.value[1].clone())
        .collect();
    assert_eq!(names, vec![s("b"), s("c"), s("e")]);
}

#[test]
fn sort_strings_lexically() {
    let mut db = fresh_db();
    let schema = Schema { columns: vec![col("w", Type::Str)] };
    db.add_table("w", &schema).unwrap();
    let mut t = db.get_table("w").unwrap();
    for w in ["pear", "apple", "app", "Zebra"] {
        t.add_record(&mut db.tree, &[s(w)]).unwrap();
    }
    let words: Vec<DBValue> = t
        .sort_records(&db.tree, "w".to_string())
        .unwrap()
        .into_iter()
        .map(|r| r.value[0].clone())
        .collect();
    assert_eq!(words, vec![s("Zebra"), s("app"), s("apple"), s("pear")]);
}

#[test]
fn sort_reals_with_nan_last() {
    let mut db = fresh_db();
    let schema = Schema { columns: vec![col("x", Type::Real)] };
    db.add_table("r", &schema).unwrap();
    let mut t = db.get_table("r").unwrap();
    for x in [f64::NAN, 2.5, -1.0, 0.0, -7.25] {
        t.add_record(&mut db.tree, &[DBValue::Real(x.to_bits())]).unwrap();
    }
    let xs: Vec<f64> = t
        .sort_records(&db.tree, "x".to_string())
        .unwrap()
        .into_iter()
        .map(|r| match r.value[0] {
            DBValue::Real(b) => f64::from_bits(b),
            _ => panic!("not a real"),
        })
        .collect();
    assert_eq!(&xs[..4], &[-7.25, -1.0, 0.0, 2.5]);
    assert!(xs[4].is_nan());
}

#[test]
fn sort_unknown_column_is_invalid() {
    let mut db = fresh_db();
    let t = people(&mut db);
    assert_eq!(
        t.sort_records(&db.tree, "nope".to_string()).unwrap_err(),
        DBError::InvalidColumn
    );
}

#[test]
fn add_column_backfills_char_interval_default() {
    let mut db = fresh_db();
    let mut t = people(&mut db);
    t.add_record(&mut db.tree, &[DBValue::Integer(1), s("a")]).unwrap();
    t.add_record(&mut db.tree, &[DBValue::Integer(2), s("b")]).unwrap();
    t.add_column(&mut db.tree, &col("flag", Type::CharInvl('a', 'z')), Some(1)).unwrap();
    assert_eq!(t.schema.columns[1].name, "flag");
    assert_eq!(t.schema.columns[1].ctype, Type::CharInvl('a', 'z'));
    for v in values_of(&t, &db) {
        assert_eq!(v.len(), 3);
        assert_eq!(v[1], DBValue::CharInvl('a'));
    }
    let again = db.get_table("t").unwrap();
    assert_eq!(again.schema.columns.len(), 3);
}

#[test]
fn add_column_appends_by_default() {
    let mut db = fresh_db();
    let mut t = people(&mut db);
    t.add_record(&mut db.tree, &[DBValue::Integer(1), s("a")]).unwrap();
    t.add_column(&mut db.tree, &col("score", Type::Real), None).unwrap();
    assert_eq!(
        values_of(&t, &db),
        vec![vec![DBValue::Integer(1), s("a"), DBValue::Real(0)]]
    );
}

#[test]
fn add_column_errors() {
    let mut db = fresh_db();
    let mut t = people(&mut db);
    assert_eq!(
        t.add_column(&mut db.tree, &col("name", Type::Char), None),
        Err(DBError::ColumnExists)
    );
    assert_eq!(
        t.add_column(&mut db.tree, &col("extra", Type::Char), Some(3)),
        Err(DBError::InvalidPosition)
    );
    assert_eq!(t.schema.columns.len(), 2);
}

#[test]
fn add_then_delete_column_restores_records() {
    let mut db = fresh_db();
    let mut t = people(&mut db);
    t.add_record(&mut db.tree, &[DBValue::Integer(1), s("a")]).unwrap();
    t.add_record(&mut db.tree, &[DBValue::Integer(2), s("b")]).unwrap();
    let before = values_of(&t, &db);
    t.add_column(&mut db.tree, &col("tmp", Type::StrCI('a', 'z')), Some(0)).unwrap();
    assert_ne!(values_of(&t, &db), before);
    t.del_column(&mut db.tree, "tmp".to_string()).unwrap();
    assert_eq!(values_of(&t, &db), before);
    assert_eq!(t.schema.columns.len(), 2);
}

#[test]
fn delete_unknown_column_is_invalid() {
    let mut db = fresh_db();
    let mut t = people(&mut db);
    assert_eq!(t.del_column(&mut db.tree, "x".to_string()), Err(DBError::InvalidColumn));
}

#[test]
fn move_column_moves_values() {
    let mut db = fresh_db();
    let mut t = people(&mut db);
    t.add_record(&mut db.tree, &[DBValue::Integer(1), s("a")]).unwrap();
    t.move_column(&mut db.tree, "id".to_string(), 1).unwrap();
    assert_eq!(t.schema.columns[0].name, "name");
    assert_eq!(t.schema.columns[1].name, "id");
    assert_eq!(values_of(&t, &db), vec![vec![s("a"), DBValue::Integer(1)]]);
    assert_eq!(
        t.move_column(&mut db.tree, "id".to_string(), 2),
        Err(DBError::InvalidPosition)
    );
    assert_eq!(
        t.move_column(&mut db.tree, "zz".to_string(), 0),
        Err(DBError::InvalidColumn)
    );
}

#[test]
fn update_column_all_or_nothing() {
    let mut db = fresh_db();
    let schema = Schema { columns: vec![col("v", Type::Str)] };
    db.add_table("s", &schema).unwrap();
    let mut t = db.get_table("s").unwrap();
    t.add_record(&mut db.tree, &[s("3")]).unwrap();
    t.add_record(&mut db.tree, &[s("x")]).unwrap();
    let r = t.upd_column(&mut db.tree, "v".to_string(), &col("v", Type::Integer), &Floats);
    assert_eq!(r, Err(DBError::TypeMismatch));
    assert_eq!(values_of(&t, &db), vec![vec![s("3")], vec![s("x")]]);
    let stored = db.get_table("s").unwrap();
    assert_eq!(stored.schema.columns[0].ctype, Type::Str);
    assert_eq!(t.schema.columns[0].ctype, Type::Str);
}

#[test]
fn update_column_retypes_and_renames() {
    let mut db = fresh_db();
    let schema = Schema { columns: vec![col("v", Type::Str), col("w", Type::Char)] };
    db.add_table("s", &schema).unwrap();
    let mut t = db.get_table("s").unwrap();
    t.add_record(&mut db.tree, &[s("3"), DBValue::Char('x')]).unwrap();
    t.add_record(&mut db.tree, &[s("-41"), DBValue::Char('y')]).unwrap();
    t.upd_column(&mut db.tree, "v".to_string(), &col("n", Type::Integer), &Floats).unwrap();
    assert_eq!(t.schema.columns[0].name, "n");
    assert_eq!(
        values_of(&t, &db),
        vec![
            vec![DBValue::Integer(3), DBValue::Char('x')],
            vec![DBValue::Integer(-41), DBValue::Char('y')]
        ]
    );
    assert_eq!(
        t.upd_column(&mut db.tree, "n".to_string(), &col("w", Type::Real), &Floats),
        Err(DBError::ColumnExists)
    );
    assert_eq!(
        t.upd_column(&mut db.tree, "q".to_string(), &col("q", Type::Real), &Floats),
        Err(DBError::InvalidColumn)
    );
    t.upd_column(&mut db.tree, "n".to_string(), &col("n", Type::Real), &Floats).unwrap();
    assert_eq!(values_of(&t, &db)[1][0], DBValue::Real((-41.0f64).to_bits()));
}

#[test]
fn insert_then_read_back() {
    let mut db = fresh_db();
    let mut t = people(&mut db);
    let k = t.add_record(&mut db.tree, &[DBValue::Integer(7), s("seven")]).unwrap();
    let recs = t.get_records(&db.tree);
    assert_eq!(recs.len(), 1);
    assert_eq!(recs[0].ident, k);
    assert_eq!(recs[0].value, vec![DBValue::Integer(7), s("seven")]);
    let reloaded = db.get_table("t").unwrap();
    assert_eq!(reloaded.records, vec![k]);
}

#[test]
fn add_record_type_mismatch() {
    let mut db = fresh_db();
    let mut t = people(&mut db);
    assert_eq!(
        t.add_record(&mut db.tree, &[s("1"), s("a")]),
        Err(DBError::TypeMismatch)
    );
    assert_eq!(
        t.add_record(&mut db.tree, &[DBValue::Integer(1)]),
        Err(DBError::TypeMismatch)
    );
    assert!(t.records.is_empty());
}

#[test]
fn update_twice_is_idempotent() {
    let mut db = fresh_db();
    let mut t = people(&mut db);
    let k0 = t.add_record(&mut db.tree, &[DBValue::Integer(0), s("z")]).unwrap();
    let k = t.add_record(&mut db.tree, &[DBValue::Integer(1), s("a")]).unwrap();
    let v = [DBValue::Integer(9), s("nine")];
    t.upd_record(&mut db.tree, k, &v).unwrap();
    let once = values_of(&t, &db);
    t.upd_record(&mut db.tree, k, &v).unwrap();
    assert_eq!(values_of(&t, &db), once);
    assert_eq!(t.records, vec![k0, k]);
    assert_eq!(once[1], v.to_vec());
}

#[test]
fn update_and_delete_by_position() {
    let mut db = fresh_db();
    let mut t = people(&mut db);
    let k1 = t.add_record(&mut db.tree, &[DBValue::Integer(1), s("a")]).unwrap();
    let k2 = t.add_record(&mut db.tree, &[DBValue::Integer(2), s("b")]).unwrap();
    t.upd_record_by_idx(&mut db.tree, 1, &[DBValue::Integer(20), s("bb")]).unwrap();
    assert_eq!(values_of(&t, &db)[1], vec![DBValue::Integer(20), s("bb")]);
    assert_eq!(
        t.upd_record_by_idx(&mut db.tree, 2, &[DBValue::Integer(3), s("c")]),
        Err(DBError::RecordNotFound)
    );
    t.del_record_by_idx(&mut db.tree, 0).unwrap();
    assert_eq!(t.records, vec![k2]);
    assert!(!db.tree.has_key(&Key::Row(k1)));
    assert_eq!(t.del_record_by_idx(&mut db.tree, 1), Err(DBError::RecordNotFound));
    assert_eq!(t.del_record(&mut db.tree, k1), Err(DBError::RecordNotFound));
    assert_eq!(
        t.upd_record(&mut db.tree, k1, &[DBValue::Integer(1), s("a")]),
        Err(DBError::RecordNotFound)
    );
}

#[test]
fn remove_table_deletes_everything() {
    let mut db = fresh_db();
    let mut t = people(&mut db);
    let k = t.add_record(&mut db.tree, &[DBValue::Integer(1), s("a")]).unwrap();
    db.remove_table("t").unwrap();
    assert_eq!(db.get_table("t").unwrap_err(), DBError::TableNotFound);
    assert!(!db.tree.has_key(&Key::Index("t".to_string())));
    assert!(!db.tree.has_key(&Key::Layout("t".to_string())));
    assert!(!db.tree.has_key(&Key::Row(k)));
    assert_eq!(db.get_tables().unwrap(), Vec::<String>::new());
    assert_eq!(db.remove_table("t"), Err(DBError::TableNotFound));
}

#[test]
fn catalog_lists_tables() {
    let mut db = fresh_db();
    let schema = Schema { columns: vec![col("a", Type::Char)] };
    db.add_table("x", &schema).unwrap();
    db.add_table("y", &schema).unwrap();
    assert_eq!(db.add_table("x", &schema), Err(DBError::TableExists));
    assert_eq!(db.get_tables().unwrap(), vec!["x".to_string(), "y".to_string()]);
    db.remove_table("x").unwrap();
    assert_eq!(db.get_tables().unwrap(), vec!["y".to_string()]);
    let info = db.get_table("y").unwrap().get_info();
    assert_eq!(info.name, "y");
    assert_eq!(info.schema.columns[0].ctype, Type::Char);
}

#[test]
fn registry_creates_once() {
    let mut reg: Registry<MemStore> = Registry::new();
    assert_eq!(get_db(&reg, "a"), Err(DBError::DatabaseNotFound));
    let i = get_or_create_db(&mut reg, "a", MemStore::new()).unwrap();
    let j = get_or_create_db(&mut reg, "b", MemStore::new()).unwrap();
    assert_eq!(get_or_create_db(&mut reg, "a", MemStore::new()).unwrap(), i);
    assert_ne!(i, j);
    assert_eq!(get_db(&reg, "b"), Ok(j));
    assert_eq!(get_dbs(&reg), vec!["a".to_string(), "b".to_string()]);
    assert_eq!(reg.dbs[i].get_tables().unwrap(), Vec::<String>::new());
}

#[test]
fn inconsistent_store_is_a_store_error() {
    let mut db = fresh_db();
    let mut t = people(&mut db);
    let k = t.add_record(&mut db.tree, &[DBValue::Integer(1), s("a")]).unwrap();
    assert!(db.tree.del(&Key::Row(k)));
    assert_eq!(db.get_table("t").unwrap_err(), DBError::StoreError);
    db.tree.set_unsafe(&Key::Row(k), tabledb::store::Entry::Row(vec![DBValue::Integer(1)]));
    assert_eq!(db.get_table("t").unwrap_err(), DBError::StoreError);
    db.tree.set_unsafe(
        &Key::Row(k),
        tabledb::store::Entry::Row(vec![DBValue::Integer(1), s("a")]),
    );
    db.tree.set_unsafe(&Key::Index("t".to_string()), tabledb::store::Entry::Index(vec![k, k]));
    assert_eq!(db.get_table("t").unwrap_err(), DBError::StoreError);
    assert_eq!(db.get_table("missing").unwrap_err(), DBError::TableNotFound);
}

#[test]
fn empty_table_operations() {
    let mut db = fresh_db();
    let mut t = people(&mut db);
    assert!(t.get_records(&db.tree).is_empty());
    assert!(t.sort_records(&db.tree, "name".to_string()).unwrap().is_empty());
    t.add_column(&mut db.tree, &col("c", Type::Char), Some(0)).unwrap();
    t.move_column(&mut db.tree, "c".to_string(), 2).unwrap();
    t.upd_column(&mut db.tree, "c".to_string(), &col("c", Type::Str), &Floats).unwrap();
    t.del_column(&mut db.tree, "c".to_string()).unwrap();
    let names: Vec<String> = t.schema.columns.iter().map(|c| c.name.clone()).collect();
    assert_eq!(names, vec!["id".to_string(), "name".to_string()]);
}

#[test]
fn open_checks_the_catalog() {
    let mut db = fresh_db();
    people(&mut db);
    let reopened = DB::open("d", db.tree).unwrap();
    assert_eq!(reopened.get_tables().unwrap(), vec!["t".to_string()]);
    let empty = DB::open("e", MemStore::new()).unwrap();
    assert_eq!(empty.get_tables().unwrap(), Vec::<String>::new());

    let mut stray = MemStore::new();
    stray.set_unsafe(&Key::Index("x".to_string()), tabledb::store::Entry::Index(vec![]));
    assert_eq!(DB::open("s", stray).err(), Some(DBError::StoreError));

    let mut unlisted = MemStore::new();
    unlisted.set_unsafe(
        &Key::Catalog,
        tabledb::store::Entry::Names(vec!["a".to_string(), "a".to_string()]),
    );
    assert_eq!(DB::open("u", unlisted).err(), Some(DBError::StoreError));

    let mut missing = MemStore::new();
    missing.set_unsafe(&Key::Catalog, tabledb::store::Entry::Names(vec!["a".to_string()]));
    assert_eq!(DB::open("m", missing).err(), Some(DBError::StoreError));
}

#[test]
fn move_then_move_back_restores() {
    let mut db = fresh_db();
    let schema = Schema {
        columns: vec![col("a", Type::Integer), col("b", Type::Char), col("c", Type::Str)],
    };
    db.add_table("m", &schema).unwrap();
    let mut t = db.get_table("m").unwrap();
    t.add_record(&mut db.tree, &[DBValue::Integer(1), DBValue::Char('x'), s("one")]).unwrap();
    let before = values_of(&t, &db);
    t.move_column(&mut db.tree, "a".to_string(), 2).unwrap();
    assert_eq!(values_of(&t, &db), vec![vec![DBValue::Char('x'), s("one"), DBValue::Integer(1)]]);
    t.move_column(&mut db.tree, "a".to_string(), 0).unwrap();
    assert_eq!(values_of(&t, &db), before);
    assert_eq!(t.schema.columns[0].name, "a");
}

#[test]
fn registry_names_stay_distinct() {
    let mut reg: Registry<MemStore> = Registry::new();
    for n in ["x", "y", "x", "y", "z"] {
        get_or_create_db(&mut reg, n, MemStore::new()).unwrap();
    }
    assert_eq!(get_dbs(&reg), vec!["x".to_string(), "y".to_string(), "z".to_string()]);
    assert_eq!(reg.dbs[2].get_tables().unwrap(), Vec::<String>::new());
}

#[test]
fn registry_lists_names_in_ascending_order() {
    let mut reg: Registry<MemStore> = Registry::new();
    let b = get_or_create_db(&mut reg, "b", MemStore::new()).unwrap();
    assert_eq!(b, 0);
    let a = get_or_create_db(&mut reg, "a", MemStore::new()).unwrap();
    assert_eq!(a, 0);
    get_or_create_db(&mut reg, "B", MemStore::new()).unwrap();
    get_or_create_db(&mut reg, "ab", MemStore::new()).unwrap();
    assert_eq!(
        get_dbs(&reg),
        vec!["B".to_string(), "a".to_string(), "ab".to_string(), "b".to_string()]
    );
    assert_eq!(get_db(&reg, "b"), Ok(3));
}

#[test]
fn remove_table_keeps_other_tables() {
    let mut db = fresh_db();
    let mut t = people(&mut db);
    let schema = Schema { columns: vec![col("x", Type::Char)] };
    db.add_table("u", &schema).unwrap();
    let mut u = db.get_table("u").unwrap();
    let ku = u.add_record(&mut db.tree, &[DBValue::Char('q')]).unwrap();
    t.add_record(&mut db.tree, &[DBValue::Integer(1), s("a")]).unwrap();
    db.remove_table("t").unwrap();
    let u2 = db.get_table("u").unwrap();
    assert_eq!(u2.records, vec![ku]);
    assert_eq!(values_of(&u2, &db), vec![vec![DBValue::Char('q')]]);
}
