use tabledb::schema::{Column, Schema};
use tabledb::store::{Entry, GetSet, Key, MemStore};
use tabledb::types::{DBValue, RealOps, Type};

struct Floats;

impl RealOps for Floats {
    fn from_int(&self, i: i64) -> u64 {
        (i as f64).to_bits()
    }

    fn to_int(&self, bits: u64) -> i64 {
        f64::from_bits(bits) as i64
    }

    fn to_text(&self, bits: u64) -> String {
        f64::from_bits(bits).to_string()
    }

    fn parse(&self, s: &str) -> Option<u64> {
        s.parse::<f64>().ok().map(|f| f.to_bits())
    }
}

fn s(text: &str) -> DBValue {
    DBValue::Str(text.to_string())
}

fn ci(text: &str) -> DBValue {
    DBValue::StrCI(text.to_string())
}

#[test]
fn subtype_is_reflexive() {
    let all = [
        Type::Integer,
        Type::Char,
        Type::CharInvl('c', 'q'),
        Type::CharInvl('q', 'c'),
        Type::Real,
        Type::Str,
        Type::StrCI('a', 'z'),
        Type::StrCI('\0', '\0'),
    ];
    for t in all.iter() {
        assert!(t.is_subtype(t));
    }
}

#[test]
fn subtype_is_not_symmetric_for_intervals() {
    let narrow = Type::CharInvl('2', '4');
    let wide = Type::CharInvl('0', '9');
    assert!(narrow.is_subtype(&wide));
    assert!(!wide.is_subtype(&narrow));
    assert!(Type::StrCI('b', 'c').is_subtype(&Type::StrCI('a', 'z')));
    assert!(!Type::StrCI('a', 'z').is_subtype(&Type::StrCI('b', 'c')));
}

#[test]
fn subtype_wildcard_and_cross_tags() {
    assert!(Type::StrCI('\0', '\0').is_subtype(&Type::StrCI('x', 'y')));
    assert!(!Type::StrCI('x', 'y').is_subtype(&Type::StrCI('\0', '\0')));
    assert!(!Type::Char.is_subtype(&Type::Str));
    assert!(!Type::Integer.is_subtype(&Type::Real));
    assert!(!Type::CharInvl('a', 'b').is_subtype(&Type::StrCI('a', 'b')));
}

#[test]
fn natural_types() {
    assert_eq!(DBValue::Integer(4).get_type(), Type::Integer);
    assert_eq!(DBValue::CharInvl('k').get_type(), Type::CharInvl('k', 'k'));
    assert_eq!(ci("hello").get_type(), Type::StrCI('e', 'o'));
    assert_eq!(ci("").get_type(), Type::StrCI('\0', '\0'));
    assert_eq!(s("").get_type(), Type::Str);
}

#[test]
fn default_values() {
    assert_eq!(Type::Integer.defvalue(), DBValue::Integer(0));
    assert_eq!(Type::Char.defvalue(), DBValue::Char('\0'));
    assert_eq!(Type::CharInvl('d', 'm').defvalue(), DBValue::CharInvl('d'));
    assert_eq!(Type::Real.defvalue(), DBValue::Real(0.0f64.to_bits()));
    assert_eq!(Type::Str.defvalue(), s(""));
    assert_eq!(Type::StrCI('a', 'b').defvalue(), ci(""));
}

#[test]
fn match_record_checks_length_and_types() {
    let schema = Schema {
        columns: vec![
            Column { name: "id".to_string(), ctype: Type::Integer },
            Column { name: "tag".to_string(), ctype: Type::StrCI('a', 'z') },
        ],
    };
    assert!(schema.match_record(&[DBValue::Integer(1), ci("abc")]));
    assert!(schema.match_record(&[DBValue::Integer(1), ci("")]));
    assert!(!schema.match_record(&[DBValue::Integer(1), ci("aBc")]));
    assert!(!schema.match_record(&[DBValue::Integer(1)]));
    assert!(!schema.match_record(&[s("1"), ci("a")]));
    assert_eq!(schema.column_types(), vec![Type::Integer, Type::StrCI('a', 'z')]);
}

#[test]
fn coerce_keeps_subtypes() {
    assert_eq!(DBValue::Integer(3).coerce(&Type::Integer, &Floats), Some(DBValue::Integer(3)));
    assert_eq!(
        DBValue::CharInvl('c').coerce(&Type::CharInvl('a', 'f'), &Floats),
        Some(DBValue::CharInvl('c'))
    );
}

#[test]
fn coerce_text_conversions() {
    assert_eq!(DBValue::Integer(-42).coerce(&Type::Str, &Floats), Some(s("-42")));
    assert_eq!(DBValue::Integer(0).coerce(&Type::Str, &Floats), Some(s("0")));
    assert_eq!(DBValue::Char('q').coerce(&Type::Str, &Floats), Some(s("q")));
    assert_eq!(DBValue::CharInvl('r').coerce(&Type::Str, &Floats), Some(s("r")));
    assert_eq!(DBValue::CharInvl('r').coerce(&Type::Char, &Floats), Some(DBValue::Char('r')));
    assert_eq!(ci("AbC").coerce(&Type::Str, &Floats), Some(s("AbC")));
}

#[test]
fn coerce_parses_integers() {
    assert_eq!(s("12").coerce(&Type::Integer, &Floats), Some(DBValue::Integer(12)));
    assert_eq!(s("+5").coerce(&Type::Integer, &Floats), Some(DBValue::Integer(5)));
    assert_eq!(ci("-8").coerce(&Type::Integer, &Floats), Some(DBValue::Integer(-8)));
    assert_eq!(s("x").coerce(&Type::Integer, &Floats), None);
    assert_eq!(s("").coerce(&Type::Integer, &Floats), None);
    assert_eq!(s("99999999999999999999").coerce(&Type::Integer, &Floats), None);
}

#[test]
fn coerce_intervals() {
    assert_eq!(
        DBValue::Char('q').coerce(&Type::CharInvl('a', 'z'), &Floats),
        Some(DBValue::CharInvl('q'))
    );
    assert_eq!(DBValue::Char('Q').coerce(&Type::CharInvl('a', 'z'), &Floats), None);
    assert_eq!(DBValue::Char('q').coerce(&Type::StrCI('a', 'z'), &Floats), Some(ci("q")));
    assert_eq!(DBValue::CharInvl('Q').coerce(&Type::StrCI('a', 'z'), &Floats), None);
    assert_eq!(s("abc").coerce(&Type::StrCI('a', 'z'), &Floats), Some(ci("abc")));
    assert_eq!(s("aBc").coerce(&Type::StrCI('a', 'z'), &Floats), None);
    assert_eq!(DBValue::Char('a').coerce(&Type::Integer, &Floats), None);
}

#[test]
fn coerce_reals() {
    assert_eq!(
        DBValue::Integer(3).coerce(&Type::Real, &Floats),
        Some(DBValue::Real(3.0f64.to_bits()))
    );
    assert_eq!(
        DBValue::Real((-2.75f64).to_bits()).coerce(&Type::Integer, &Floats),
        Some(DBValue::Integer(-2))
    );
    assert_eq!(
        DBValue::Real(1.5f64.to_bits()).coerce(&Type::Str, &Floats),
        Some(s("1.5"))
    );
    assert_eq!(
        s("0.25").coerce(&Type::Real, &Floats),
        Some(DBValue::Real(0.25f64.to_bits()))
    );
    assert_eq!(s("abc").coerce(&Type::Real, &Floats), None);
}

#[test]
fn mem_store_basics() {
    let mut m = MemStore::new();
    let k = Key::Index("t".to_string());
    assert!(!m.has_key(&k));
    m.set_unsafe(&k, Entry::Index(vec![1, 2]));
    m.set_unsafe(&Key::Row(1), Entry::Row(vec![DBValue::Integer(1)]));
    m.set_unsafe(&k, Entry::Index(vec![3]));
    match m.get_unsafe(&k) {
        Some(Entry::Index(v)) => assert_eq!(v, vec![3]),
        _ => panic!("missing index"),
    }
    assert!(m.del(&k));
    assert!(!m.del(&k));
    assert!(m.get_unsafe(&k).is_none());
    assert!(m.has_key(&Key::Row(1)));
}
