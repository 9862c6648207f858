use vstd::prelude::*;
use crate::hierarchy_spec::names_view;
use crate::decimal::to_decimal;
use crate::table::{cell_text, Column, ColumnData, Table};

verus! {

/// The composite key of row `r`: the key text of each selected column, in
/// order.
pub open spec fn key_at(cols: Seq<Column>, sel: Seq<usize>, r: int) -> Seq<Seq<char>> {
    Seq::new(sel.len(), |j: int| cell_text(cols[sel[j] as int], r))
}

/// The text of every key.
pub open spec fn keys_view(keys: Seq<Vec<String>>) -> Seq<Seq<Seq<char>>> {
    keys.map_values(|k: Vec<String>| names_view(k@))
}

/// All selected columns exist.
pub open spec fn key_selection(cols: Seq<Column>, sel: Seq<usize>) -> bool {
    forall|j: int| 0 <= j < sel.len() ==> #[trigger] sel[j] < cols.len()
}

/// The distinct keys of a table, in order of first occurrence, and the key of
/// each row as a position among them.
pub struct KeyIndex {
    pub keys: Vec<Vec<String>>,
    pub row_key: Vec<usize>,
    pub first_row: Vec<usize>,
}

/// `ix` indexes the keys of the first `n` rows.
pub open spec fn indexes(ix: KeyIndex, cols: Seq<Column>, sel: Seq<usize>, n: nat) -> bool {
    let kv = keys_view(ix.keys@);
    &&& kv.no_duplicates()
    &&& ix.row_key@.len() == n
    &&& ix.first_row@.len() == kv.len()
    &&& forall|r: int|
        0 <= r < n ==> #[trigger] ix.row_key@[r] < kv.len() && kv[ix.row_key@[r] as int] == key_at(
            cols,
            sel,
            r,
        )
    &&& forall|b: int|
        0 <= b < kv.len() ==> #[trigger] ix.first_row@[b] < n && ix.row_key@[ix.first_row@[b] as int]
            == b
    &&& forall|r: int| 0 <= r < n ==> ix.first_row@[#[trigger] ix.row_key@[r] as int] <= r
    &&& forall|a: int, b: int|
        0 <= a < b < kv.len() ==> #[trigger] ix.first_row@[a] < #[trigger] ix.first_row@[b]
}

/// Compares two keys cell by cell.
fn same_key(a: &Vec<String>, b: &Vec<String>) -> (r: bool)
    ensures
        r == (names_view(a@) == names_view(b@)),
{
    if a.len() != b.len() {
        assert(names_view(a@).len() != names_view(b@).len());
        return false;
    }
    let mut j: usize = 0;
    while j < a.len()
        invariant
            a@.len() == b@.len(),
            0 <= j <= a@.len(),
            forall|i: int| 0 <= i < j ==> a@[i]@ == b@[i]@,
        decreases a@.len() - j,
    {
        if a[j] != b[j] {
            assert(names_view(a@)[j as int] != names_view(b@)[j as int]);
            return false;
        }
        j += 1;
    }
    assert(names_view(a@) =~= names_view(b@));
    true
}

/// Reads the key of row `r`.
fn read_key(t: &Table, sel: &Vec<usize>, r: usize) -> (k: Vec<String>)
    requires
        t.wf(),
        r < t.rows(),
        key_selection(t.columns(), sel@),
    ensures
        names_view(k@) == key_at(t.columns(), sel@, r as int),
        k@.len() == sel@.len(),
{
    let mut k: Vec<String> = Vec::new();
    let mut j: usize = 0;
    while j < sel.len()
        invariant
            t.wf(),
            r < t.rows(),
            key_selection(t.columns(), sel@),
            0 <= j <= sel@.len(),
            k@.len() == j,
            forall|i: int| 0 <= i < j ==> k@[i]@ == cell_text(t.columns()[sel@[i] as int], r as int),
        decreases sel@.len() - j,
    {
        assert(sel@[j as int] < t.columns().len());
        let c = t.column(sel[j]);
        assert(crate::table::column_len(*c) == t.rows());
        match &c.data {
            ColumnData::Text(v) => {
                k.push(v[r].clone());
            },
            ColumnData::Int(v) => {
                k.push(to_decimal(v[r]));
            },
        }
        j += 1;
    }
    assert(names_view(k@) =~= key_at(t.columns(), sel@, r as int));
    k
}

/// Position of `k` among `keys`, if present.
fn find_key(keys: &Vec<Vec<String>>, k: &Vec<String>) -> (r: Option<usize>)
    ensures
        r matches Some(b) ==> b < keys@.len() && keys_view(keys@)[b as int] == names_view(k@),
        r is None ==> forall|b: int| 0 <= b < keys@.len() ==> keys_view(keys@)[b] != names_view(k@),
{
    let mut b: usize = 0;
    while b < keys.len()
        invariant
            0 <= b <= keys@.len(),
            forall|i: int| 0 <= i < b ==> keys_view(keys@)[i] != names_view(k@),
        decreases keys@.len() - b,
    {
        if same_key(&keys[b], k) {
            return Some(b);
        }
        b += 1;
    }
    None
}

/// Collects the distinct keys of all rows in order of first occurrence.
pub fn index_keys(t: &Table, sel: &Vec<usize>) -> (ix: KeyIndex)
    requires
        t.wf(),
        key_selection(t.columns(), sel@),
    ensures
        indexes(ix, t.columns(), sel@, t.rows()),
        forall|b: int| 0 <= b < ix.keys@.len() ==> (#[trigger] ix.keys@[b])@.len() == sel@.len(),
{
    let n = t.n_rows();
    let mut ix = KeyIndex { keys: Vec::new(), row_key: Vec::new(), first_row: Vec::new() };
    let mut r: usize = 0;
    while r < n
        invariant
            t.wf(),
            n == t.rows(),
            key_selection(t.columns(), sel@),
            0 <= r <= n,
            indexes(ix, t.columns(), sel@, r as nat),
            forall|b: int| 0 <= b < ix.keys@.len() ==> (#[trigger] ix.keys@[b])@.len() == sel@.len(),
        decreases n - r,
    {
        let k = read_key(t, sel, r);
        let ghost old_ix = ix;
        match find_key(&ix.keys, &k) {
            Some(b) => {
                ix.row_key.push(b);
            },
            None => {
                let b = ix.keys.len();
                ix.keys.push(k);
                ix.row_key.push(b);
                ix.first_row.push(r);
                assert(keys_view(ix.keys@) =~= keys_view(old_ix.keys@).push(names_view(k@)));
            },
        }
        r += 1;
    }
    ix
}

} // verus!
