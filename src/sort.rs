use vstd::prelude::*;
use vstd::seq_lib::{to_multiset_build, to_multiset_insert};
use vstd::string::*;

use crate::error::DBError;
use crate::schema::{column_position, values_view};
use crate::store::{copy_values, GetSet};
use crate::table::{row_of, Record, Table};
use crate::types::{DBValue, ValueV};

verus! {

/// The place of a value's variant in the order of variants.
pub open spec fn rank(v: ValueV) -> int {
    match v {
        ValueV::Integer(_) => 0,
        ValueV::Char(_) => 1,
        ValueV::CharInvl(_) => 2,
        ValueV::Real(_) => 3,
        ValueV::Str(_) => 4,
        ValueV::StrCI(_) => 5,
    }
}

/// Orders reals held as IEEE-754 bits by their value: both zeros are equal, and every
/// NaN is equal to every other and greater than every other real.
pub open spec fn real_key(bits: u64) -> int {
    let mag = bits & 0x7fff_ffff_ffff_ffffu64;
    if mag > 0x7ff0_0000_0000_0000u64 {
        0x7ff0_0000_0000_0001int
    } else if bits >> 63u64 == 1u64 {
        -(mag as int)
    } else {
        mag as int
    }
}

/// Lexicographic order on character sequences.
pub open spec fn lex_le(a: Seq<char>, b: Seq<char>) -> bool
    decreases a.len(),
{
    if a.len() == 0 {
        true
    } else if b.len() == 0 {
        false
    } else if (a[0] as u32) != (b[0] as u32) {
        (a[0] as u32) < (b[0] as u32)
    } else {
        lex_le(a.drop_first(), b.drop_first())
    }
}

/// The order in which records are sorted by a column's values.
pub open spec fn value_le(a: ValueV, b: ValueV) -> bool {
    if rank(a) != rank(b) {
        rank(a) < rank(b)
    } else {
        match (a, b) {
            (ValueV::Integer(x), ValueV::Integer(y)) => x <= y,
            (ValueV::Char(x), ValueV::Char(y)) => x as u32 <= y as u32,
            (ValueV::CharInvl(x), ValueV::CharInvl(y)) => x as u32 <= y as u32,
            (ValueV::Real(x), ValueV::Real(y)) => real_key(x) <= real_key(y),
            (ValueV::Str(x), ValueV::Str(y)) => lex_le(x, y),
            (ValueV::StrCI(x), ValueV::StrCI(y)) => lex_le(x, y),
            _ => true,
        }
    }
}

/// Records ordered by their values at position `idx`.
pub open spec fn sorted_by(rows: Seq<(u64, Seq<ValueV>)>, idx: int) -> bool {
    forall|i: int, j: int|
        0 <= i < j < rows.len() ==> value_le(#[trigger] rows[i].1[idx], #[trigger] rows[j].1[idx])
}

pub proof fn lemma_lex_total(a: Seq<char>, b: Seq<char>)
    ensures
        lex_le(a, b) || lex_le(b, a),
    decreases a.len(),
{
    if a.len() > 0 && b.len() > 0 && (a[0] as u32) == (b[0] as u32) {
        lemma_lex_total(a.drop_first(), b.drop_first());
    }
}

pub proof fn lemma_lex_trans(a: Seq<char>, b: Seq<char>, c: Seq<char>)
    requires
        lex_le(a, b),
        lex_le(b, c),
    ensures
        lex_le(a, c),
    decreases a.len(),
{
    if a.len() > 0 && b.len() > 0 && c.len() > 0 && (a[0] as u32) == (b[0] as u32) && (b[0] as u32)
        == (c[0] as u32) {
        lemma_lex_trans(a.drop_first(), b.drop_first(), c.drop_first());
    }
}

/// Any two values are ordered one way or the other.
pub proof fn lemma_value_total(a: ValueV, b: ValueV)
    ensures
        value_le(a, b) || value_le(b, a),
{
    match (a, b) {
        (ValueV::Str(x), ValueV::Str(y)) => lemma_lex_total(x, y),
        (ValueV::StrCI(x), ValueV::StrCI(y)) => lemma_lex_total(x, y),
        _ => {},
    }
}

/// The order is transitive.
pub proof fn lemma_value_trans(a: ValueV, b: ValueV, c: ValueV)
    requires
        value_le(a, b),
        value_le(b, c),
    ensures
        value_le(a, c),
{
    match (a, b, c) {
        (ValueV::Str(x), ValueV::Str(y), ValueV::Str(z)) => lemma_lex_trans(x, y, z),
        (ValueV::StrCI(x), ValueV::StrCI(y), ValueV::StrCI(z)) => lemma_lex_trans(x, y, z),
        _ => {},
    }
}

fn real_key_of(bits: u64) -> (r: i128)
    ensures
        r as int == real_key(bits),
{
    let mag = bits & 0x7fff_ffff_ffff_ffffu64;
    if mag > 0x7ff0_0000_0000_0000u64 {
        0x7ff0_0000_0000_0001i128
    } else if bits >> 63u64 == 1u64 {
        -(mag as i128)
    } else {
        mag as i128
    }
}

pub(crate) fn text_le(a: &str, b: &str) -> (r: bool)
    ensures
        r == lex_le(a@, b@),
{
    let n = a.unicode_len();
    let m = b.unicode_len();
    let mut i: usize = 0;
    assert(a@.skip(0) =~= a@);
    assert(b@.skip(0) =~= b@);
    while i < n && i < m
        invariant
            n == a@.len(),
            m == b@.len(),
            i <= n,
            i <= m,
            lex_le(a@, b@) == lex_le(a@.skip(i as int), b@.skip(i as int)),
        decreases n - i,
    {
        let x = a.get_char(i);
        let y = b.get_char(i);
        assert(a@.skip(i as int)[0] == x);
        assert(b@.skip(i as int)[0] == y);
        if (x as u32) != (y as u32) {
            return (x as u32) < (y as u32);
        }
        assert(a@.skip(i as int).drop_first() =~= a@.skip(i + 1));
        assert(b@.skip(i as int).drop_first() =~= b@.skip(i + 1));
        i = i + 1;
    }
    i == n
}

fn value_le_exec(a: &DBValue, b: &DBValue) -> (r: bool)
    ensures
        r == value_le(a@, b@),
{
    match (a, b) {
        (DBValue::Integer(x), DBValue::Integer(y)) => *x <= *y,
        (DBValue::Char(x), DBValue::Char(y)) => (*x as u32) <= (*y as u32),
        (DBValue::CharInvl(x), DBValue::CharInvl(y)) => (*x as u32) <= (*y as u32),
        (DBValue::Real(x), DBValue::Real(y)) => real_key_of(*x) <= real_key_of(*y),
        (DBValue::Str(x), DBValue::Str(y)) => text_le(x.as_str(), y.as_str()),
        (DBValue::StrCI(x), DBValue::StrCI(y)) => text_le(x.as_str(), y.as_str()),
        _ => rank_of(a) < rank_of(b),
    }
}

fn rank_of(v: &DBValue) -> (r: u8)
    ensures
        r as int == rank(v@),
{
    match v {
        DBValue::Integer(_) => 0,
        DBValue::Char(_) => 1,
        DBValue::CharInvl(_) => 2,
        DBValue::Real(_) => 3,
        DBValue::Str(_) => 4,
        DBValue::StrCI(_) => 5,
    }
}

/// Where a record goes in records sorted at `idx`: after every one whose value is not
/// greater than its own.
fn insert_position(out: &Vec<Record>, rec: &Record, idx: usize) -> (p: usize)
    requires
        idx < rec.value@.len(),
        forall|j: int| 0 <= j < out@.len() ==> idx < (#[trigger] out@[j]).value@.len(),
    ensures
        p <= out@.len(),
        forall|j: int|
            0 <= j < p ==> value_le(
                (#[trigger] out@[j])@.1[idx as int],
                rec@.1[idx as int],
            ),
        p < out@.len() ==> !value_le(out@[p as int]@.1[idx as int], rec@.1[idx as int]),
{
    let mut p: usize = 0;
    while p < out.len()
        invariant
            idx < rec.value@.len(),
            forall|j: int| 0 <= j < out@.len() ==> idx < (#[trigger] out@[j]).value@.len(),
            p <= out@.len(),
            forall|j: int|
                0 <= j < p ==> value_le(
                    (#[trigger] out@[j])@.1[idx as int],
                    rec@.1[idx as int],
                ),
        decreases out@.len() - p,
    {
        if !value_le_exec(&out[p].value[idx], &rec.value[idx]) {
            return p;
        }
        p = p + 1;
    }
    p
}

/// Inserting a value after every one not greater than it, and before one greater,
/// keeps records sorted.
pub proof fn lemma_sorted_insert(
    views: Seq<(u64, Seq<ValueV>)>,
    p: int,
    x: (u64, Seq<ValueV>),
    idx: int,
)
    requires
        sorted_by(views, idx),
        0 <= p <= views.len(),
        forall|j: int| 0 <= j < p ==> value_le((#[trigger] views[j]).1[idx], x.1[idx]),
        p < views.len() ==> !value_le(views[p].1[idx], x.1[idx]),
    ensures
        sorted_by(views.insert(p, x), idx),
{
    let nv = views.insert(p, x);
    let v = x.1[idx];
    if p < views.len() {
        lemma_value_total(views[p].1[idx], v);
    }
    assert forall|a: int, b: int| 0 <= a < b < nv.len() implies value_le(
        #[trigger] nv[a].1[idx],
        #[trigger] nv[b].1[idx],
    ) by {
        if b < p {
            assert(nv[a] == views[a] && nv[b] == views[b]);
        } else if b == p {
            assert(nv[a] == views[a]);
        } else if a > p {
            assert(nv[a] == views[a - 1] && nv[b] == views[b - 1]);
        } else if a == p {
            assert(nv[b] == views[b - 1]);
            if b - 1 > p {
                assert(value_le(views[p].1[idx], views[b - 1].1[idx]));
                lemma_value_trans(v, views[p].1[idx], views[b - 1].1[idx]);
            }
        } else {
            assert(nv[a] == views[a] && nv[b] == views[b - 1]);
            assert(value_le(views[a].1[idx], v));
            if b - 1 > p {
                assert(value_le(views[p].1[idx], views[b - 1].1[idx]));
                lemma_value_trans(v, views[p].1[idx], views[b - 1].1[idx]);
            }
            lemma_value_trans(views[a].1[idx], v, views[b - 1].1[idx]);
        }
    }
}

impl Table {
    /// Every record, ordered by the values of column `key`.
    #[verifier::rlimit(80)]
    pub fn sort_records<KV: GetSet>(&self, db: &KV, key: String) -> (r: Result<
        Vec<Record>,
        DBError,
    >)
        requires
            self.wf_in(db.kv()),
        ensures
            match column_position(self.schema@, key@) {
                None => r == Err::<Vec<Record>, DBError>(DBError::InvalidColumn),
                Some(p) => match r {
                    Ok(v) => {
                        &&& v@.map_values(|x: Record| x@).to_multiset() == self.rows(
                            db.kv(),
                        ).to_multiset()
                        &&& sorted_by(v@.map_values(|x: Record| x@), p)
                    },
                    Err(_) => false,
                },
            },
    {
        let idx = match self.schema.position(&key) {
            Some(p) => p,
            None => {
                return Err(DBError::InvalidColumn);
            },
        };
        let recs = self.get_records(db);
        let ghost rows = self.rows(db.kv());
        let mut out: Vec<Record> = Vec::new();
        let mut i: usize = 0;
        assert(out@.map_values(|x: Record| x@) =~= rows.subrange(0, 0));
        while i < recs.len()
            invariant
                self.wf_in(db.kv()),
                rows == self.rows(db.kv()),
                recs@.map_values(|x: Record| x@) == rows,
                idx < self.schema@.len(),
                i <= recs@.len(),
                out@.map_values(|x: Record| x@).to_multiset() == rows.subrange(
                    0,
                    i as int,
                ).to_multiset(),
                forall|j: int| 0 <= j < out@.len() ==> idx < (#[trigger] out@[j]).value@.len(),
                sorted_by(out@.map_values(|x: Record| x@), idx as int),
            decreases recs@.len() - i,
        {
            let ghost old_out = out@;
            let ghost views = out@.map_values(|x: Record| x@);
            let rec = &recs[i];
            proof {
                assert(rows.len() == self.records@.len());
                assert(recs@.map_values(|x: Record| x@).len() == recs@.len());
                assert(rec@ == rows[i as int]);
                assert(self.rows(db.kv())[i as int] == (self.records@[i as int], row_of(db.kv(), self.records@[i as int])));
                assert(row_of(db.kv(), self.records@[i as int]).len() == self.schema@.len());
                assert(rows[i as int].1 == row_of(db.kv(), self.records@[i as int]));
                assert(rec@.1.len() == rec.value@.len());
            }
            let p = insert_position(&out, rec, idx);
            let copy = Record { ident: rec.ident, value: copy_values(rec.value.as_slice()) };
            assert(copy@ == rec@);
            out.insert(p, copy);
            proof {
                let nviews = out@.map_values(|x: Record| x@);
                assert(nviews =~= views.insert(p as int, rec@));
                to_multiset_insert(views, p as int, rec@);
                assert(rows.subrange(0, i + 1) =~= rows.subrange(0, i as int).push(rec@));
                to_multiset_build(rows.subrange(0, i as int), rec@);
                lemma_sorted_insert(views, p as int, rec@, idx as int);
                assert forall|j: int| 0 <= j < out@.len() implies idx < (
                #[trigger] out@[j]).value@.len() by {
                    if j < p {
                        assert(out@[j] == old_out[j]);
                    } else if j > p {
                        assert(out@[j] == old_out[j - 1]);
                    } else {
                        assert(values_view(out@[j].value@).len() == out@[j].value@.len());
                    }
                }
            }
            i = i + 1;
        }
        proof {
            assert(rows.subrange(0, recs@.len() as int) =~= rows);
        }
        Ok(out)
    }
}

} // verus!
