use vstd::prelude::*;

use crate::types::{natural_type, DBValue, Type, ValueV};

verus! {

/// A named, typed column.
#[derive(Clone, Debug)]
pub struct Column {
    pub name: String,
    pub ctype: Type,
}

impl View for Column {
    type V = (Seq<char>, Type);

    open spec fn view(&self) -> (Seq<char>, Type) {
        (self.name@, self.ctype)
    }
}

/// The ordered columns of a table.
#[derive(Clone, Debug)]
pub struct Schema {
    pub columns: Vec<Column>,
}

impl View for Schema {
    type V = Seq<(Seq<char>, Type)>;

    open spec fn view(&self) -> Seq<(Seq<char>, Type)> {
        self.columns@.map_values(|c: Column| c@)
    }
}

/// The views of a sequence of values.
pub open spec fn values_view(v: Seq<DBValue>) -> Seq<ValueV> {
    v.map_values(|x: DBValue| x@)
}

/// `values` fits `schema`: one value per column, each of a subtype of its column's type.
pub open spec fn fits(schema: Seq<(Seq<char>, Type)>, values: Seq<ValueV>) -> bool {
    &&& values.len() == schema.len()
    &&& forall|i: int|
        0 <= i < values.len() ==> #[trigger] natural_type(values[i]).subtype_of(schema[i].1)
}

/// The position of the first column called `name`, if any.
pub open spec fn column_position(schema: Seq<(Seq<char>, Type)>, name: Seq<char>) -> Option<int> {
    if exists|i: int| 0 <= i < schema.len() && schema[i].0 == name {
        Some(
            choose|i: int|
                0 <= i < schema.len() && schema[i].0 == name && forall|j: int|
                    0 <= j < i ==> schema[j].0 != name,
        )
    } else {
        None
    }
}

/// Proves that the first position of `name` is `i` when `i` holds it and no earlier one does.
pub proof fn lemma_column_position(schema: Seq<(Seq<char>, Type)>, name: Seq<char>, i: int)
    requires
        0 <= i < schema.len(),
        schema[i].0 == name,
        forall|j: int| 0 <= j < i ==> schema[j].0 != name,
    ensures
        column_position(schema, name) == Some(i),
{
    let k = choose|k: int|
        0 <= k < schema.len() && schema[k].0 == name && forall|j: int|
            0 <= j < k ==> schema[j].0 != name;
    assert(k == i) by {
        if k < i {
        } else if k > i {
        }
    }
}

/// A copy with the same view.
pub fn copy_column(c: &Column) -> (r: Column)
    ensures
        r@ == c@,
{
    Column { name: c.name.clone(), ctype: c.ctype }
}

impl Schema {
    /// Whether `values` fits the schema.
    pub fn match_record(&self, values: &[DBValue]) -> (r: bool)
        ensures
            r == fits(self@, values_view(values@)),
    {
        if values.len() != self.columns.len() {
            return false;
        }
        let types = self.column_types();
        let mut i: usize = 0;
        while i < values.len()
            invariant
                values.len() == self.columns@.len(),
                types@.len() == self.columns@.len(),
                forall|j: int| 0 <= j < types@.len() ==> types@[j] == self.columns@[j].ctype,
                i <= values.len(),
                forall|j: int|
                    0 <= j < i ==> natural_type(values@[j]@).subtype_of(self.columns@[j].ctype),
            decreases values.len() - i,
        {
            if !values[i].get_type().is_subtype(&types[i]) {
                assert(!natural_type(values_view(values@)[i as int]).subtype_of(
                    self@[i as int].1,
                ));
                return false;
            }
            i = i + 1;
        }
        true
    }

    /// The column types, in column order.
    pub fn column_types(&self) -> (r: Vec<Type>)
        ensures
            r@.len() == self.columns@.len(),
            forall|j: int| 0 <= j < r@.len() ==> r@[j] == self.columns@[j].ctype,
    {
        let mut r: Vec<Type> = Vec::new();
        let mut i: usize = 0;
        while i < self.columns.len()
            invariant
                i <= self.columns@.len(),
                r@.len() == i,
                forall|j: int| 0 <= j < i ==> r@[j] == self.columns@[j].ctype,
            decreases self.columns@.len() - i,
        {
            r.push(self.columns[i].ctype);
            i = i + 1;
        }
        r
    }

    /// The position of the first column called `name`.
    pub fn position(&self, name: &String) -> (r: Option<usize>)
        ensures
            match r {
                Some(i) => i < self@.len() && self@[i as int].0 == name@ && column_position(
                    self@,
                    name@,
                ) == Some(i as int),
                None => column_position(self@, name@) is None,
            },
    {
        let mut i: usize = 0;
        while i < self.columns.len()
            invariant
                i <= self.columns@.len(),
                forall|j: int| 0 <= j < i ==> self@[j].0 != name@,
            decreases self.columns@.len() - i,
        {
            if self.columns[i].name == *name {
                proof {
                    lemma_column_position(self@, name@, i as int);
                }
                return Some(i);
            }
            i = i + 1;
        }
        None
    }

    /// A copy with the same view.
    pub fn duplicate(&self) -> (r: Schema)
        ensures
            r@ == self@,
    {
        let mut cols: Vec<Column> = Vec::new();
        let mut i: usize = 0;
        while i < self.columns.len()
            invariant
                i <= self.columns@.len(),
                cols@.len() == i,
                forall|j: int| 0 <= j < i ==> cols@[j]@ == self.columns@[j]@,
            decreases self.columns@.len() - i,
        {
            cols.push(copy_column(&self.columns[i]));
            i = i + 1;
        }
        let r = Schema { columns: cols };
        assert(r@ =~= self@);
        r
    }
}

} // verus!
