use vstd::prelude::*;

verus! {

/// The cells of one column: integers or text.
#[derive(Debug, Clone)]
pub enum ColumnData {
    Int(Vec<i64>),
    Text(Vec<String>),
}

/// A named column.
#[derive(Debug, Clone)]
pub struct Column {
    pub name: String,
    pub data: ColumnData,
}

/// Number of cells in a column.
pub open spec fn column_len(c: Column) -> nat {
    match c.data {
        ColumnData::Int(v) => v@.len(),
        ColumnData::Text(v) => v@.len(),
    }
}

pub open spec fn is_text(c: Column) -> bool {
    c.data is Text
}

pub open spec fn is_int(c: Column) -> bool {
    c.data is Int
}

/// The text of row `r` of a text column.
pub open spec fn text_at(c: Column, r: int) -> Seq<char> {
    match c.data {
        ColumnData::Text(v) => v@[r]@,
        ColumnData::Int(_) => Seq::empty(),
    }
}

/// The key text of row `r`: the text itself, or the decimal text of an
/// integer.
pub open spec fn cell_text(c: Column, r: int) -> Seq<char> {
    match c.data {
        ColumnData::Text(v) => v@[r]@,
        ColumnData::Int(v) => crate::decimal::int_text(v@[r] as int),
    }
}

/// The integer of row `r` of an integer column.
pub open spec fn int_at(c: Column, r: int) -> i64 {
    match c.data {
        ColumnData::Int(v) => v@[r],
        ColumnData::Text(_) => 0,
    }
}

/// `i` is the first column named `name`.
pub open spec fn first_column(cols: Seq<Column>, name: Seq<char>, i: int) -> bool {
    &&& 0 <= i < cols.len()
    &&& cols[i].name@ == name
    &&& forall|j: int| 0 <= j < i ==> cols[j].name@ != name
}

/// No column is named `name`.
pub open spec fn column_absent(cols: Seq<Column>, name: Seq<char>) -> bool {
    forall|j: int| 0 <= j < cols.len() ==> cols[j].name@ != name
}

/// Every column has `n` cells.
pub open spec fn rectangular(cols: Seq<Column>, n: nat) -> bool {
    forall|j: int| 0 <= j < cols.len() ==> column_len(cols[j]) == n
}

/// Named columns of one common length.
#[derive(Debug, Clone)]
pub struct Table {
    columns: Vec<Column>,
    n_rows: usize,
}

impl Table {
    pub closed spec fn columns(&self) -> Seq<Column> {
        self.columns@
    }

    pub closed spec fn rows(&self) -> nat {
        self.n_rows as nat
    }

    pub open spec fn wf(&self) -> bool {
        rectangular(self.columns(), self.rows())
    }

    /// Builds a table from columns; `None` exactly when two columns differ in
    /// length. A table without columns has no rows.
    pub fn new(columns: Vec<Column>) -> (r: Option<Table>)
        ensures
            r is Some <==> (forall|a: int, b: int|
                0 <= a < columns.len() && 0 <= b < columns.len() ==> column_len(columns@[a])
                    == column_len(columns@[b])),
            r matches Some(t) ==> t.columns() == columns@ && t.wf() && (columns.len() == 0
                ==> t.rows() == 0) && (columns.len() > 0 ==> t.rows() == column_len(
                columns@[0])),
    {
        if columns.len() == 0 {
            return Some(Table { columns, n_rows: 0 });
        }
        let n = Self::len_of(&columns[0]);
        let mut i: usize = 1;
        while i < columns.len()
            invariant
                1 <= i <= columns.len(),
                n == column_len(columns@[0]),
                forall|j: int| 0 <= j < i ==> column_len(columns@[j]) == n,
            decreases columns.len() - i,
        {
            if Self::len_of(&columns[i]) != n {
                return None;
            }
            i += 1;
        }
        Some(Table { columns, n_rows: n })
    }

    fn len_of(c: &Column) -> (r: usize)
        ensures
            r == column_len(*c),
    {
        match &c.data {
            ColumnData::Int(v) => v.len(),
            ColumnData::Text(v) => v.len(),
        }
    }

    /// Number of rows.
    pub fn n_rows(&self) -> (r: usize)
        ensures
            r == self.rows(),
    {
        self.n_rows
    }

    /// The column at position `i`.
    pub fn column(&self, i: usize) -> (r: &Column)
        requires
            i < self.columns().len(),
        ensures
            *r == self.columns()[i as int],
    {
        &self.columns[i]
    }

    /// Position of the first column named `name`, if any.
    pub fn find_column(&self, name: &String) -> (r: Option<usize>)
        ensures
            r matches Some(i) ==> first_column(self.columns(), name@, i as int),
            r is None ==> column_absent(self.columns(), name@),
    {
        let mut i: usize = 0;
        while i < self.columns.len()
            invariant
                0 <= i <= self.columns@.len(),
                forall|j: int| 0 <= j < i ==> self.columns@[j].name@ != name@,
            decreases self.columns@.len() - i,
        {
            if self.columns[i].name == *name {
                return Some(i);
            }
            i += 1;
        }
        None
    }
}

} // verus!
