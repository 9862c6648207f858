use vstd::prelude::*;
use vstd::string::StringExecFns;
use crate::checks::{check_nesting, check_unique};
use crate::error::HtsError;
use crate::hierarchy_spec::{names_view, HtsSpec, MAX_GROUPS};
use crate::keys::{index_keys, key_at, keys_view};
use crate::nodes::{agree, bit, covers, enumerate_nodes, enumerates, has_bit, popcount, shaped, Node};
use crate::order::{copy_period, lemma_period_order, period_lt, same_period, Period};
use crate::periods::{increasing, index_periods, read_int, time_at};
use crate::table::{column_absent, first_column, int_at, is_int, is_text, Column, ColumnData, Table};

verus! {

/// The column that `name` refers to: the first one so named, or -1.
pub open spec fn column_of(cols: Seq<Column>, name: Seq<char>) -> int {
    if exists|i: int| first_column(cols, name, i) {
        choose|i: int| first_column(cols, name, i)
    } else {
        -1
    }
}

/// The key columns of a structure: hierarchy top to bottom, then the groups.
pub open spec fn key_names(s: HtsSpec) -> Seq<Seq<char>> {
    s.hierarchy_names() + s.group_names()
}

/// Every key column and the time and value columns are present.
pub open spec fn columns_present(cols: Seq<Column>, s: HtsSpec, time: Seq<char>, value: Seq<char>) -> bool {
    &&& forall|j: int| 0 <= j < key_names(s).len() ==> !column_absent(cols, #[trigger] key_names(s)[j])
    &&& !column_absent(cols, time)
    &&& !column_absent(cols, value)
}

/// The value column holds integers. Key columns of either kind are discrete
/// (an integer is keyed by its decimal text), and the time column of either
/// kind is ordered.
pub open spec fn columns_typed(cols: Seq<Column>, s: HtsSpec, time: Seq<char>, value: Seq<char>) -> bool {
    &&& is_int(cols[column_of(cols, value)])
}

/// Positions of the key columns.
pub open spec fn key_columns(cols: Seq<Column>, s: HtsSpec) -> Seq<usize> {
    Seq::new(key_names(s).len(), |j: int| column_of(cols, key_names(s)[j]) as usize)
}

/// The hierarchy nests strictly over the rows: rows that agree at a level
/// below the top agree at the level above.
pub open spec fn rows_nested(cols: Seq<Column>, sel: Seq<usize>, n: nat, depth: nat) -> bool {
    forall|r1: int, r2: int, j: int|
        0 <= r1 < n && 0 <= r2 < n && 1 <= j < depth && #[trigger] key_at(cols, sel, r1)[j]
            == #[trigger] key_at(cols, sel, r2)[j] ==> key_at(cols, sel, r1)[j - 1] == key_at(
            cols,
            sel,
            r2,
        )[j - 1]
}

/// No two rows share both key and period.
pub open spec fn rows_unique(cols: Seq<Column>, sel: Seq<usize>, time: int, n: nat) -> bool {
    forall|r1: int, r2: int|
        0 <= r1 < r2 < n ==> !(#[trigger] key_at(cols, sel, r1) == #[trigger] key_at(cols, sel, r2)
            && same_period(time_at(cols[time], r1), time_at(cols[time], r2)))
}

/// A hierarchical and grouped collection of bottom-level series: the distinct
/// bottom keys (in order of first occurrence), the distinct periods (in
/// increasing order), each observation, and every aggregation node.
pub struct Hts {
    depth: usize,
    groups: usize,
    keys: Vec<Vec<String>>,
    periods: Vec<Period>,
    row_key: Vec<usize>,
    row_period: Vec<usize>,
    values: Vec<i64>,
    key_first: Vec<usize>,
    period_first: Vec<usize>,
    nodes: Vec<Node>,
}

impl Hts {
    /// Number of hierarchy levels.
    pub closed spec fn depth_spec(&self) -> nat {
        self.depth as nat
    }

    /// Number of group columns.
    pub closed spec fn groups_spec(&self) -> nat {
        self.groups as nat
    }

    /// The bottom keys, in column order of the summation matrix.
    pub closed spec fn bottom_keys(&self) -> Seq<Seq<Seq<char>>> {
        keys_view(self.keys@)
    }

    /// The distinct periods, increasing.
    pub closed spec fn periods_spec(&self) -> Seq<Period> {
        self.periods@
    }

    /// Every aggregation node, in row order of the summation matrix.
    pub closed spec fn nodes_spec(&self) -> Seq<Node> {
        self.nodes@
    }

    /// Number of observations.
    pub closed spec fn n_obs(&self) -> nat {
        self.values@.len()
    }

    /// Position of the bottom key of observation `r`.
    pub closed spec fn obs_key(&self, r: int) -> int {
        self.row_key@[r] as int
    }

    /// Position of the period of observation `r`.
    pub closed spec fn obs_period(&self, r: int) -> int {
        self.row_period@[r] as int
    }

    /// The first observation of bottom key `b`.
    pub closed spec fn key_first_obs(&self, b: int) -> int {
        self.key_first@[b] as int
    }

    /// An observation in period `p`.
    pub closed spec fn period_first_obs(&self, p: int) -> int {
        self.period_first@[p] as int
    }

    /// Value of observation `r`.
    pub closed spec fn obs_value(&self, r: int) -> i64 {
        self.values@[r]
    }

    pub closed spec fn wf(&self) -> bool {
        &&& shaped(self.keys@, self.depth as nat, self.groups as nat)
        &&& self.groups <= MAX_GROUPS
        &&& keys_view(self.keys@).no_duplicates()
        &&& increasing(self.periods@)
        &&& self.row_key@.len() == self.values@.len()
        &&& self.row_period@.len() == self.values@.len()
        &&& forall|r: int|
            0 <= r < self.values@.len() ==> #[trigger] self.row_key@[r] < self.keys@.len()
                && self.row_period@[r] < self.periods@.len()
        &&& self.key_first@.len() == self.keys@.len()
        &&& forall|b: int|
            0 <= b < self.keys@.len() ==> #[trigger] self.key_first@[b] < self.values@.len()
                && self.row_key@[self.key_first@[b] as int] == b
        &&& forall|r: int|
            0 <= r < self.values@.len() ==> self.key_first@[#[trigger] self.row_key@[r] as int] <= r
        &&& forall|a: int, b: int|
            0 <= a < b < self.keys@.len() ==> #[trigger] self.key_first@[a] < #[trigger] self.key_first@[b]
        &&& self.period_first@.len() == self.periods@.len()
        &&& forall|p: int|
            0 <= p < self.periods@.len() ==> #[trigger] self.period_first@[p] < self.values@.len()
                && self.row_period@[self.period_first@[p] as int] == p
        &&& enumerates(keys_view(self.keys@), self.depth as nat, self.groups as nat, self.nodes@)
    }
}

/// The first column of a name is the one that `column_of` picks.
proof fn lemma_column_of(cols: Seq<Column>, name: Seq<char>, i: int)
    requires
        first_column(cols, name, i),
    ensures
        column_of(cols, name) == i,
{
    let k = choose|k: int| first_column(cols, name, k);
    if k < i {
        assert(cols[k].name@ != name);
    } else if k > i {
        assert(cols[i].name@ != name);
    }
}

/// The key column names of a structure, hierarchy first.
fn key_column_names(s: &HtsSpec) -> (r: Vec<String>)
    ensures
        names_view(r@) == key_names(*s),
{
    let mut r: Vec<String> = Vec::new();
    let h = s.hierarchy();
    let g = s.groups();
    let mut i: usize = 0;
    while i < h.len()
        invariant
            0 <= i <= h@.len(),
            names_view(r@) == names_view(h@).subrange(0, i as int),
        decreases h@.len() - i,
    {
        let ghost before = r@;
        let c = h[i].clone();
        assert(c@ == names_view(h@)[i as int]);
        r.push(c);
        assert(names_view(r@) =~= names_view(before).push(c@));
        assert(names_view(r@) =~= names_view(h@).subrange(0, i + 1));
        i += 1;
    }
    assert(names_view(h@).subrange(0, h@.len() as int) =~= names_view(h@));
    let mut j: usize = 0;
    while j < g.len()
        invariant
            0 <= j <= g@.len(),
            names_view(r@) == names_view(h@) + names_view(g@).subrange(0, j as int),
        decreases g@.len() - j,
    {
        let ghost before = r@;
        let c = g[j].clone();
        assert(c@ == names_view(g@)[j as int]);
        r.push(c);
        assert(names_view(r@) =~= names_view(before).push(c@));
        assert(names_view(r@) =~= names_view(h@) + names_view(g@).subrange(0, j + 1));
        j += 1;
    }
    assert(names_view(g@).subrange(0, g@.len() as int) =~= names_view(g@));
    r
}

/// Finds each named column; `None` when one is absent.
fn resolve_columns(t: &Table, names: &Vec<String>) -> (r: Option<Vec<usize>>)
    ensures
        r matches Some(sel) ==> sel@.len() == names@.len() && forall|j: int|
            0 <= j < names@.len() ==> first_column(t.columns(), names@[j]@, #[trigger] sel@[j] as int),
        r is None ==> exists|j: int| 0 <= j < names@.len() && column_absent(t.columns(), #[trigger] names@[j]@),
{
    let mut sel: Vec<usize> = Vec::new();
    let mut j: usize = 0;
    while j < names.len()
        invariant
            0 <= j <= names@.len(),
            sel@.len() == j,
            forall|i: int| 0 <= i < j ==> first_column(t.columns(), names@[i]@, #[trigger] sel@[i] as int),
        decreases names@.len() - j,
    {
        match t.find_column(&names[j]) {
            Some(c) => sel.push(c),
            None => return None,
        }
        j += 1;
    }
    Some(sel)
}

/// Whether a column holds integers.
fn int_column(t: &Table, c: usize) -> (r: bool)
    requires
        c < t.columns().len(),
    ensures
        r == is_int(t.columns()[c as int]),
{
    match &t.column(c).data {
        ColumnData::Int(_) => true,
        ColumnData::Text(_) => false,
    }
}

impl Hts {
    /// Builds the collection from a table of bottom-level observations.
    ///
    /// Key columns may hold text or integers (an integer is keyed by its
    /// decimal text); the time column may hold integers or text, ordered as
    /// `period_lt` states; the value column holds integers.
    ///
    /// Fails with `MissingColumn` when a key, time or value column is absent;
    /// else with `UnsupportedColumnType` when the value column holds text;
    /// else with `InconsistentNesting` when a hierarchy value sits under two
    /// parents; else with `DuplicateObservation` when a key and period occur
    /// twice.
    pub fn new(bottom_level: &Table, spec: &HtsSpec, time_col: &String, value_col: &String) -> (r:
        Result<Hts, HtsError>)
        requires
            bottom_level.wf(),
            spec.wf(),
        ensures
            ({
                let cols = bottom_level.columns();
                let present = columns_present(cols, *spec, time_col@, value_col@);
                let typed = columns_typed(cols, *spec, time_col@, value_col@);
                let sel = key_columns(cols, *spec);
                let n = bottom_level.rows();
                let nest = rows_nested(cols, sel, n, spec.hierarchy_names().len());
                let unique = rows_unique(cols, sel, column_of(cols, time_col@), n);
                &&& (r == Err::<Hts, HtsError>(HtsError::MissingColumn) <==> !present)
                &&& (r == Err::<Hts, HtsError>(HtsError::UnsupportedColumnType) <==> present && !typed)
                &&& (r == Err::<Hts, HtsError>(HtsError::InconsistentNesting) <==> present && typed
                    && !nest)
                &&& (r == Err::<Hts, HtsError>(HtsError::DuplicateObservation) <==> present && typed
                    && nest && !unique)
                &&& (r is Ok <==> present && typed && nest && unique)
            }),
            r matches Ok(h) ==> ({
                let cols = bottom_level.columns();
                let sel = key_columns(cols, *spec);
                let tc = column_of(cols, time_col@);
                let vc = column_of(cols, value_col@);
                &&& h.wf()
                &&& h.bottom_keys().no_duplicates()
                &&& increasing(h.periods_spec())
                &&& enumerates(h.bottom_keys(), h.depth_spec(), h.groups_spec(), h.nodes_spec())
                &&& forall|b: int|
                    0 <= b < h.bottom_keys().len() ==> 0 <= #[trigger] h.key_first_obs(b) < h.n_obs()
                        && h.obs_key(h.key_first_obs(b)) == b
                &&& forall|q: int|
                    0 <= q < h.n_obs() ==> 0 <= #[trigger] h.obs_key(q) < h.bottom_keys().len()
                        && 0 <= h.obs_period(q) < h.periods_spec().len()
                &&& forall|p: int|
                    0 <= p < h.periods_spec().len() ==> 0 <= #[trigger] h.period_first_obs(p) < h.n_obs()
                        && h.obs_period(h.period_first_obs(p)) == p
                &&& forall|q: int| 0 <= q < h.n_obs() ==> h.key_first_obs(#[trigger] h.obs_key(q)) <= q
                &&& forall|a: int, b: int|
                    0 <= a < b < h.bottom_keys().len() ==> #[trigger] h.key_first_obs(a)
                        < #[trigger] h.key_first_obs(b)
                &&& h.depth_spec() == spec.hierarchy_names().len()
                &&& h.groups_spec() == spec.group_names().len()
                &&& h.n_obs() == bottom_level.rows()
                &&& forall|q: int|
                    0 <= q < h.n_obs() ==> #[trigger] h.bottom_keys()[h.obs_key(q)] == key_at(cols, sel, q)
                        && same_period(h.periods_spec()[h.obs_period(q)], time_at(cols[tc], q)) && h.obs_value(q)
                        == int_at(cols[vc], q)
            }),
    {
        let ghost cols = bottom_level.columns();
        let ghost kn = key_names(*spec);
        let ghost n = bottom_level.rows();
        let names = key_column_names(spec);
        assert(names_view(names@) == kn);
        assert forall|j: int| 0 <= j < kn.len() implies kn[j] == #[trigger] names@[j]@ by {
            assert(names_view(names@)[j] == names@[j]@);
        }
        let sel = match resolve_columns(bottom_level, &names) {
            Some(sel) => sel,
            None => {
                return Err(HtsError::MissingColumn);
            },
        };
        let tc = match bottom_level.find_column(time_col) {
            Some(c) => c,
            None => {
                return Err(HtsError::MissingColumn);
            },
        };
        let vc = match bottom_level.find_column(value_col) {
            Some(c) => c,
            None => {
                return Err(HtsError::MissingColumn);
            },
        };
        proof {
            lemma_column_of(cols, time_col@, tc as int);
            lemma_column_of(cols, value_col@, vc as int);
            assert forall|j: int| 0 <= j < kn.len() implies #[trigger] sel@[j] as int == column_of(cols, kn[j]) by {
                lemma_column_of(cols, kn[j], sel@[j] as int);
            }
            assert(sel@ =~= key_columns(cols, *spec));
            assert forall|j: int| 0 <= j < kn.len() implies !column_absent(cols, #[trigger] kn[j]) by {
                assert(first_column(cols, names@[j]@, sel@[j] as int));
            }
            assert(columns_present(cols, *spec, time_col@, value_col@));
        }
        if !int_column(bottom_level, vc) {
            return Err(HtsError::UnsupportedColumnType);
        }
        assert(columns_typed(cols, *spec, time_col@, value_col@));
        let depth = spec.hierarchy().len();
        let groups = spec.groups().len();
        let ix = index_keys(bottom_level, &sel);
        let ghost kv = keys_view(ix.keys@);
        proof {
            assert forall|b: int| 0 <= b < ix.keys@.len() implies (#[trigger] ix.keys@[b])@.len() >= depth by {
            }
        }
        let nested_ok = check_nesting(&ix.keys, depth);
        proof {
            if nested_ok {
                assert forall|r1: int, r2: int, j: int|
                    0 <= r1 < n && 0 <= r2 < n && 1 <= j < depth && #[trigger] key_at(cols, sel@, r1)[j]
                        == #[trigger] key_at(cols, sel@, r2)[j] implies key_at(cols, sel@, r1)[j - 1]
                        == key_at(cols, sel@, r2)[j - 1] by {
                    let a = ix.row_key@[r1] as int;
                    let b = ix.row_key@[r2] as int;
                    assert(kv[a][j] == kv[b][j]);
                }
            } else {
                let (a, b, j) = choose|a: int, b: int, j: int|
                    0 <= a < kv.len() && 0 <= b < kv.len() && 1 <= j < depth && #[trigger] kv[a][j]
                        == #[trigger] kv[b][j] && kv[a][j - 1] != kv[b][j - 1];
                let r1 = ix.first_row@[a] as int;
                let r2 = ix.first_row@[b] as int;
                assert(key_at(cols, sel@, r1) == kv[a]);
                assert(key_at(cols, sel@, r2) == kv[b]);
                assert(!rows_nested(cols, sel@, n, depth as nat));
            }
        }
        if !nested_ok {
            return Err(HtsError::InconsistentNesting);
        }
        let pix = index_periods(bottom_level, tc);
        let unique_ok = check_unique(&ix.row_key, &pix.row_period);
        proof {
            let ghost tcol = cols[tc as int];
            if unique_ok {
                assert forall|r1: int, r2: int|
                    0 <= r1 < r2 < n implies !(#[trigger] key_at(cols, sel@, r1) == #[trigger] key_at(
                        cols,
                        sel@,
                        r2,
                    ) && same_period(time_at(tcol, r1), time_at(tcol, r2))) by {
                    if key_at(cols, sel@, r1) == key_at(cols, sel@, r2) && same_period(time_at(tcol, r1), time_at(tcol, r2)) {
                        let a = ix.row_key@[r1] as int;
                        let b = ix.row_key@[r2] as int;
                        assert(kv[a] == kv[b]);
                        let pa = pix.row_period@[r1] as int;
                        let pb = pix.row_period@[r2] as int;
                        let xa = pix.periods@[pa];
                        let xb = pix.periods@[pb];
                        lemma_period_order(xa, time_at(tcol, r1), time_at(tcol, r2));
                        lemma_period_order(time_at(tcol, r2), xb, xb);
                        lemma_period_order(xa, time_at(tcol, r2), xb);
                        lemma_period_order(xa, xb, xb);
                        if pa < pb {
                            assert(period_lt(xa, xb));
                        } else if pb < pa {
                            assert(period_lt(xb, xa));
                        }
                        assert(ix.row_key@[r1] == ix.row_key@[r2]);
                    }
                }
            } else {
                let (r1, r2) = choose|r1: int, r2: int|
                    0 <= r1 < r2 < ix.row_key@.len() && #[trigger] ix.row_key@[r1] == #[trigger] ix.row_key@[r2]
                        && pix.row_period@[r1] == pix.row_period@[r2];
                assert(key_at(cols, sel@, r1) == key_at(cols, sel@, r2));
                let x = pix.periods@[pix.row_period@[r1] as int];
                lemma_period_order(time_at(tcol, r1), x, time_at(tcol, r2));
                lemma_period_order(x, time_at(tcol, r1), x);
                assert(same_period(time_at(tcol, r1), time_at(tcol, r2)));
            }
        }
        if !unique_ok {
            return Err(HtsError::DuplicateObservation);
        }
        let nr = bottom_level.n_rows();
        let mut values: Vec<i64> = Vec::new();
        let mut q: usize = 0;
        while q < nr
            invariant
                bottom_level.wf(),
                nr == n,
                n == bottom_level.rows(),
                vc < cols.len(),
                cols == bottom_level.columns(),
                is_int(cols[vc as int]),
                0 <= q <= nr,
                values@.len() == q,
                forall|i: int| 0 <= i < q ==> #[trigger] values@[i] == int_at(cols[vc as int], i),
            decreases nr - q,
        {
            values.push(read_int(bottom_level, vc, q));
            q += 1;
        }
        let nodes = enumerate_nodes(&ix.keys, depth, groups);
        let h = Hts {
            depth,
            groups,
            keys: ix.keys,
            periods: pix.periods,
            row_key: ix.row_key,
            row_period: pix.row_period,
            values,
            key_first: ix.first_row,
            period_first: pix.first_row,
            nodes,
        };
        proof {
            assert forall|p: int| 0 <= p < h.periods@.len() implies #[trigger] h.period_first@[p]
                < h.values@.len() && h.row_period@[h.period_first@[p] as int] == p by {
                let q = pix.first_row@[p] as int;
                let pb = h.row_period@[q] as int;
                let tcol = cols[tc as int];
                lemma_period_order(h.periods@[pb], time_at(tcol, q), h.periods@[p]);
                lemma_period_order(h.periods@[p], h.periods@[p], h.periods@[p]);
                lemma_period_order(h.periods@[pb], h.periods@[p], h.periods@[p]);
                lemma_period_order(h.periods@[p], h.periods@[pb], h.periods@[pb]);
                if pb < p {
                    assert(period_lt(h.periods@[pb], h.periods@[p]));
                } else if pb > p {
                    assert(period_lt(h.periods@[p], h.periods@[pb]));
                }
            }
            assert(h.wf());
            assert forall|q: int| 0 <= q < h.n_obs() implies #[trigger] h.bottom_keys()[h.obs_key(q)]
                == key_at(cols, sel@, q) && same_period(h.periods_spec()[h.obs_period(q)], time_at(cols[tc as int], q))
                && h.obs_value(q) == int_at(cols[vc as int], q) by {
            }
        }
        Ok(h)
    }
}

/// The text of a label part.
pub open spec fn part_view(o: Option<String>) -> Option<Seq<char>> {
    match o {
        Some(s) => Some(s@),
        None => None,
    }
}

/// The text of every label part.
pub open spec fn parts_view(v: Seq<Option<String>>) -> Seq<Option<Seq<char>>> {
    v.map_values(|o: Option<String>| part_view(o))
}

/// A label part as display text: the value, or `Total` where summed away.
pub open spec fn part_text(o: Option<Seq<char>>) -> Seq<char> {
    match o {
        Some(s) => s,
        None => total_text(),
    }
}

/// The display text of a summed-away column.
pub open spec fn total_text() -> Seq<char> {
    seq!['T', 'o', 't', 'a', 'l']
}

fn total_label() -> (r: String)
    ensures
        r@ == total_text(),
{
    let s = "Total".to_owned();
    proof {
        reveal_strlit("Total");
    }
    s
}

/// The summation matrix: one row per node, one column per bottom key, with
/// labels. A row label has one part per key column: the fixed value, or
/// `None` where the column is summed away; a column label is the bottom key.
pub struct SummationMatrix {
    pub matrix: Vec<Vec<u8>>,
    pub row_labels: Vec<Vec<Option<String>>>,
    pub col_labels: Vec<Vec<String>>,
}

/// Every node's value at every period, in the row order of the summation
/// matrix and in increasing period order. Row `i` carries the label of node
/// `i`, as in the summation matrix.
pub struct AggregatedSeries {
    pub periods: Vec<Period>,
    pub row_labels: Vec<Vec<Option<String>>>,
    pub values: Vec<Vec<i128>>,
}

/// Bound on the magnitude of one observation.
pub open spec fn obs_bound() -> int {
    0x8000_0000_0000_0000
}

impl Hts {
    /// Node `i` covers bottom key `b`.
    pub open spec fn covers_spec(&self, i: int, b: int) -> bool {
        covers(self.bottom_keys(), self.depth_spec(), self.groups_spec(), self.nodes_spec()[i], b)
    }

    /// Entry `(i, b)` of the summation matrix.
    pub open spec fn entry(&self, i: int, b: int) -> u8 {
        if self.covers_spec(i, b) {
            1
        } else {
            0
        }
    }

    /// Sum of the values of the first `n` observations that fall in period `p`
    /// and belong to node `i`.
    pub open spec fn rollup(&self, i: int, p: int, n: nat) -> int
        decreases n,
    {
        if n == 0 {
            0
        } else {
            self.rollup(i, p, (n - 1) as nat) + if self.obs_period(n - 1) == p && self.covers_spec(
                i,
                self.obs_key(n - 1),
            ) {
                self.obs_value(n - 1) as int
            } else {
                0
            }
        }
    }

    /// Label part `j` of node `i`: the fixed value, or `None` where column `j`
    /// is summed away.
    pub open spec fn label_part(&self, i: int, j: int) -> Option<Seq<char>> {
        let n = self.nodes_spec()[i];
        let kv = self.bottom_keys();
        if j < self.depth_spec() {
            if j < n.depth {
                Some(kv[n.rep as int][j])
            } else {
                None
            }
        } else if has_bit(n.mask, (j - self.depth_spec()) as nat) {
            Some(kv[n.rep as int][j])
        } else {
            None
        }
    }

    /// Total number of series, every aggregation level included.
    pub fn n_series(&self) -> (r: usize)
        ensures
            r == self.nodes_spec().len(),
    {
        self.nodes.len()
    }

    /// Number of bottom-level series.
    pub fn n_bottom(&self) -> (r: usize)
        ensures
            r == self.bottom_keys().len(),
    {
        self.keys.len()
    }

    /// Number of distinct periods.
    pub fn n_periods(&self) -> (r: usize)
        ensures
            r == self.periods_spec().len(),
    {
        self.periods.len()
    }

    /// The distinct periods, increasing.
    pub fn periods(&self) -> (r: &Vec<Period>)
        ensures
            r@ == self.periods_spec(),
    {
        &self.periods
    }

    /// Row `i` of the summation matrix.
    fn member_row(&self, i: usize) -> (r: Vec<u8>)
        requires
            self.wf(),
            i < self.nodes_spec().len(),
        ensures
            r@.len() == self.bottom_keys().len(),
            forall|b: int| 0 <= b < r@.len() ==> #[trigger] r@[b] == self.entry(i as int, b),
    {
        let n = self.nodes[i];
        assert(crate::nodes::is_node(keys_view(self.keys@), self.depth as nat, self.groups as nat, n));
        let mut r: Vec<u8> = Vec::new();
        let mut b: usize = 0;
        while b < self.keys.len()
            invariant
                self.wf(),
                i < self.nodes@.len(),
                n == self.nodes@[i as int],
                n.depth <= self.depth,
                n.rep < self.keys@.len(),
                0 <= b <= self.keys@.len(),
                r@.len() == b,
                forall|c: int| 0 <= c < b ==> #[trigger] r@[c] == self.entry(i as int, c),
            decreases self.keys@.len() - b,
        {
            if agree(&self.keys, self.depth, self.groups, n.depth, n.mask, n.rep, b) {
                r.push(1u8);
            } else {
                r.push(0u8);
            }
            b += 1;
        }
        r
    }
}

impl Hts {
    /// The label of node `i`: one part per key column.
    fn row_label(&self, i: usize) -> (r: Vec<Option<String>>)
        requires
            self.wf(),
            i < self.nodes_spec().len(),
        ensures
            r@.len() == self.depth_spec() + self.groups_spec(),
            forall|j: int| 0 <= j < r@.len() ==> part_view(#[trigger] r@[j]) == self.label_part(i as int, j),
    {
        let n = self.nodes[i];
        assert(crate::nodes::is_node(keys_view(self.keys@), self.depth as nat, self.groups as nat, n));
        let key = &self.keys[n.rep];
        assert(key@.len() == self.depth + self.groups);
        let w = key.len();
        let mut r: Vec<Option<String>> = Vec::new();
        let mut j: usize = 0;
        while j < w
            invariant
                self.wf(),
                i < self.nodes@.len(),
                n == self.nodes@[i as int],
                n.rep < self.keys@.len(),
                key == self.keys@[n.rep as int],
                w == self.depth + self.groups,
                w == key@.len(),
                0 <= j <= w,
                r@.len() == j,
                forall|c: int| 0 <= c < j ==> part_view(#[trigger] r@[c]) == self.label_part(i as int, c),
            decreases w - j,
        {
            assert(keys_view(self.keys@)[n.rep as int][j as int] == key@[j as int]@);
            let part = if j < self.depth {
                if j < n.depth {
                    Some(key[j].clone())
                } else {
                    None
                }
            } else if bit(n.mask, j - self.depth) {
                Some(key[j].clone())
            } else {
                None
            };
            r.push(part);
            j += 1;
        }
        r
    }

    /// The label of every node, in row order.
    fn node_labels(&self) -> (r: Vec<Vec<Option<String>>>)
        requires
            self.wf(),
        ensures
            r@.len() == self.nodes_spec().len(),
            forall|i: int|
                0 <= i < r@.len() ==> parts_view((#[trigger] r@[i])@) == Seq::new(
                    self.depth_spec() + self.groups_spec(),
                    |j: int| self.label_part(i, j),
                ),
    {
        let mut row_labels: Vec<Vec<Option<String>>> = Vec::new();
        let mut i: usize = 0;
        while i < self.nodes.len()
            invariant
                self.wf(),
                0 <= i <= self.nodes@.len(),
                row_labels@.len() == i,
                forall|k: int|
                    0 <= k < i ==> parts_view((#[trigger] row_labels@[k])@) == Seq::new(
                        self.depth_spec() + self.groups_spec(),
                        |j: int| self.label_part(k, j),
                    ),
            decreases self.nodes@.len() - i,
        {
            let label = self.row_label(i);
            assert(parts_view(label@) =~= Seq::new(
                self.depth_spec() + self.groups_spec(),
                |j: int| self.label_part(i as int, j),
            ));
            row_labels.push(label);
            i += 1;
        }
        row_labels
    }

    /// The summation matrix and its labels. Entry `(i, b)` is 1 exactly when
    /// node `i` covers bottom key `b`; row labels name the nodes, column labels
    /// are the bottom keys.
    pub fn summation_matrix(&self) -> (m: SummationMatrix)
        requires
            self.wf(),
        ensures
            m.matrix@.len() == self.nodes_spec().len(),
            forall|i: int|
                0 <= i < m.matrix@.len() ==> (#[trigger] m.matrix@[i])@.len() == self.bottom_keys().len(),
            forall|i: int, b: int|
                0 <= i < m.matrix@.len() && 0 <= b < self.bottom_keys().len() ==> #[trigger] m.matrix@[i]@[b]
                    == self.entry(i, b),
            m.row_labels@.len() == self.nodes_spec().len(),
            forall|i: int|
                0 <= i < m.row_labels@.len() ==> parts_view((#[trigger] m.row_labels@[i])@) == Seq::new(
                    self.depth_spec() + self.groups_spec(),
                    |j: int| self.label_part(i, j),
                ),
            keys_view(m.col_labels@) == self.bottom_keys(),
    {
        let mut matrix: Vec<Vec<u8>> = Vec::new();
        let mut i: usize = 0;
        while i < self.nodes.len()
            invariant
                self.wf(),
                0 <= i <= self.nodes@.len(),
                matrix@.len() == i,
                forall|k: int| 0 <= k < i ==> (#[trigger] matrix@[k])@.len() == self.bottom_keys().len(),
                forall|k: int, b: int|
                    0 <= k < i && 0 <= b < self.bottom_keys().len() ==> #[trigger] matrix@[k]@[b]
                        == self.entry(k, b),
            decreases self.nodes@.len() - i,
        {
            matrix.push(self.member_row(i));
            i += 1;
        }
        let row_labels = self.node_labels();
        let col_labels = self.keys.clone();
        assert(keys_view(col_labels@) =~= self.bottom_keys());
        SummationMatrix { matrix, row_labels, col_labels }
    }
}

/// A rollup over `n` observations stays within `n` times the bound of one.
proof fn lemma_rollup_bound(h: &Hts, i: int, p: int, n: nat)
    requires
        n <= h.n_obs(),
    ensures
        -(n * obs_bound()) <= h.rollup(i, p, n) <= n * obs_bound() - n,
    decreases n,
{
    if n > 0 {
        lemma_rollup_bound(h, i, p, (n - 1) as nat);
    }
}

impl Hts {
    /// Every node's value at every period: the sum of the values of the
    /// observations of that period whose bottom key the node covers. A bottom
    /// series with no observation in a period contributes nothing to it.
    pub fn aggregated_series(&self) -> (a: AggregatedSeries)
        requires
            self.wf(),
        ensures
            a.periods@ == self.periods_spec(),
            a.row_labels@.len() == self.nodes_spec().len(),
            forall|i: int|
                0 <= i < a.row_labels@.len() ==> parts_view((#[trigger] a.row_labels@[i])@) == Seq::new(
                    self.depth_spec() + self.groups_spec(),
                    |j: int| self.label_part(i, j),
                ),
            a.values@.len() == self.nodes_spec().len(),
            forall|i: int|
                0 <= i < a.values@.len() ==> (#[trigger] a.values@[i])@.len() == self.periods_spec().len(),
            forall|i: int, p: int|
                0 <= i < a.values@.len() && 0 <= p < self.periods_spec().len() ==> #[trigger] a.values@[i]@[p]
                    == self.rollup(i, p, self.n_obs()),
    {
        let np = self.periods.len();
        let nr = self.values.len();
        let mut values: Vec<Vec<i128>> = Vec::new();
        let mut i: usize = 0;
        while i < self.nodes.len()
            invariant
                self.wf(),
                np == self.periods@.len(),
                nr == self.values@.len(),
                0 <= i <= self.nodes@.len(),
                values@.len() == i,
                forall|k: int| 0 <= k < i ==> (#[trigger] values@[k])@.len() == np,
                forall|k: int, p: int|
                    0 <= k < i && 0 <= p < np ==> #[trigger] values@[k]@[p] == self.rollup(k, p, self.n_obs()),
            decreases self.nodes@.len() - i,
        {
            let row = self.member_row(i);
            let mut acc: Vec<i128> = Vec::new();
            let mut p: usize = 0;
            while p < np
                invariant
                    0 <= p <= np,
                    acc@.len() == p,
                    forall|c: int| 0 <= c < p ==> #[trigger] acc@[c] == 0,
                decreases np - p,
            {
                acc.push(0i128);
                p += 1;
            }
            let mut q: usize = 0;
            while q < nr
                invariant
                    self.wf(),
                    i < self.nodes@.len(),
                    np == self.periods@.len(),
                    nr == self.values@.len(),
                    row@.len() == self.bottom_keys().len(),
                    forall|b: int| 0 <= b < row@.len() ==> #[trigger] row@[b] == self.entry(i as int, b),
                    0 <= q <= nr,
                    acc@.len() == np,
                    forall|c: int| 0 <= c < np ==> #[trigger] acc@[c] == self.rollup(i as int, c, q as nat),
                decreases nr - q,
            {
                let b = self.row_key[q];
                let pq = self.row_period[q];
                proof {
                    lemma_rollup_bound(self, i as int, pq as int, q as nat);
                    assert(forall|c: int|
                        0 <= c < np ==> #[trigger] self.rollup(i as int, c, (q + 1) as nat) == self.rollup(
                            i as int,
                            c,
                            q as nat,
                        ) + if self.obs_period(q as int) == c && self.covers_spec(i as int, self.obs_key(q as int)) {
                            self.obs_value(q as int) as int
                        } else {
                            0
                        });
                }
                if row[b] == 1 {
                    let v = acc[pq] + self.values[q] as i128;
                    acc.set(pq, v);
                }
                q += 1;
            }
            values.push(acc);
            i += 1;
        }
        let row_labels = self.node_labels();
        let mut periods: Vec<Period> = Vec::new();
        let mut p: usize = 0;
        while p < self.periods.len()
            invariant
                0 <= p <= self.periods@.len(),
                periods@ == self.periods@.subrange(0, p as int),
            decreases self.periods@.len() - p,
        {
            periods.push(copy_period(&self.periods[p]));
            assert(periods@ =~= self.periods@.subrange(0, p + 1));
            p += 1;
        }
        assert(self.periods@.subrange(0, self.periods@.len() as int) =~= self.periods@);
        AggregatedSeries { periods, row_labels, values }
    }
}

impl Hts {
    /// Value of bottom series `b` at period `p`, summed straight from the first
    /// `n` observations.
    pub open spec fn bottom_value(&self, b: int, p: int, n: nat) -> int
        decreases n,
    {
        if n == 0 {
            0
        } else {
            self.bottom_value(b, p, (n - 1) as nat) + if self.obs_key(n - 1) == b && self.obs_period(n - 1)
                == p {
                self.obs_value(n - 1) as int
            } else {
                0
            }
        }
    }

    /// Sum of the bottom values at period `p` over the first `m` bottom keys
    /// whose entry in row `i` of the summation matrix is 1.
    pub open spec fn matrix_value(&self, i: int, p: int, n: nat, m: nat) -> int
        decreases m,
    {
        if m == 0 {
            0
        } else {
            self.matrix_value(i, p, n, (m - 1) as nat) + if self.entry(i, m - 1) == 1 {
                self.bottom_value(m - 1, p, n)
            } else {
                0
            }
        }
    }

    /// Sum of the values of the first `n` observations in period `p`.
    pub open spec fn period_total(&self, p: int, n: nat) -> int
        decreases n,
    {
        if n == 0 {
            0
        } else {
            self.period_total(p, (n - 1) as nat) + if self.obs_period(n - 1) == p {
                self.obs_value(n - 1) as int
            } else {
                0
            }
        }
    }
}

proof fn lemma_matrix_value_step(h: &Hts, i: int, p: int, n: nat, m: nat)
    requires
        n < h.n_obs(),
    ensures
        h.matrix_value(i, p, n + 1, m) == h.matrix_value(i, p, n, m) + if h.obs_key(n as int) < m
            && h.obs_period(n as int) == p && h.entry(i, h.obs_key(n as int)) == 1 {
            h.obs_value(n as int) as int
        } else {
            0
        },
    decreases m,
{
    if m > 0 {
        lemma_matrix_value_step(h, i, p, n, (m - 1) as nat);
        assert(h.bottom_value(m - 1, p, n + 1) == h.bottom_value(m - 1, p, n) + if h.obs_key(n as int)
            == m - 1 && h.obs_period(n as int) == p {
            h.obs_value(n as int) as int
        } else {
            0
        });
    }
}

/// Aggregation through the summation matrix agrees with a direct group-by-sum:
/// the value of every node at every period equals the sum, over the bottom
/// series whose matrix entry for that node is 1, of their own values at that
/// period.
pub proof fn lemma_rollup_matches_matrix(h: &Hts, i: int, p: int)
    requires
        h.wf(),
        0 <= i < h.nodes_spec().len(),
    ensures
        h.rollup(i, p, h.n_obs()) == h.matrix_value(i, p, h.n_obs(), h.bottom_keys().len()),
{
    lemma_rollup_matches_matrix_upto(h, i, p, h.n_obs());
}

proof fn lemma_rollup_matches_matrix_upto(h: &Hts, i: int, p: int, n: nat)
    requires
        h.wf(),
        0 <= i < h.nodes_spec().len(),
        n <= h.n_obs(),
    ensures
        h.rollup(i, p, n) == h.matrix_value(i, p, n, h.bottom_keys().len()),
    decreases n,
{
    let nb = h.bottom_keys().len();
    if n == 0 {
        lemma_matrix_value_zero(h, i, p, nb);
    } else {
        let q = (n - 1) as nat;
        lemma_rollup_matches_matrix_upto(h, i, p, q);
        lemma_matrix_value_step(h, i, p, q, nb);
        assert(h.obs_key(q as int) < nb);
    }
}

proof fn lemma_matrix_value_zero(h: &Hts, i: int, p: int, m: nat)
    ensures
        h.matrix_value(i, p, 0, m) == 0,
    decreases m,
{
    if m > 0 {
        lemma_matrix_value_zero(h, i, p, (m - 1) as nat);
    }
}

proof fn lemma_no_bits(g: u64)
    requires
        g < 64,
    ensures
        (0u64 >> g) & 1u64 != 1u64,
        (1u64 << g) > 0u64,
{
    assert((0u64 >> g) & 1u64 != 1u64) by (bit_vector)
        requires
            g < 64,
    ;
    assert((1u64 << g) > 0u64) by (bit_vector)
        requires
            g < 64,
    ;
}

proof fn lemma_popcount_zero(n: nat)
    requires
        n <= 64,
    ensures
        crate::nodes::popcount(0u64, n) == 0,
    decreases n,
{
    if n > 0 {
        lemma_popcount_zero((n - 1) as nat);
        lemma_no_bits((n - 1) as u64);
    }
}

proof fn lemma_rollup_total_upto(h: &Hts, p: int, n: nat)
    requires
        forall|b: int| 0 <= b < h.bottom_keys().len() ==> #[trigger] h.covers_spec(0, b),
        forall|q: int| 0 <= q < h.n_obs() ==> #[trigger] h.obs_key(q) < h.bottom_keys().len(),
        n <= h.n_obs(),
    ensures
        h.rollup(0, p, n) == h.period_total(p, n),
    decreases n,
{
    if n > 0 {
        lemma_rollup_total_upto(h, p, (n - 1) as nat);
        assert(h.covers_spec(0, h.obs_key(n - 1)));
    }
}

/// The grand total comes first: its row of the summation matrix is all ones,
/// and its value at every period is the sum of every observation of that
/// period.
pub proof fn lemma_grand_total(h: &Hts, p: int)
    requires
        h.wf(),
        h.bottom_keys().len() > 0,
    ensures
        h.nodes_spec().len() > 0,
        h.nodes_spec()[0] == (Node { depth: 0, mask: 0, rep: 0 }),
        forall|b: int| 0 <= b < h.bottom_keys().len() ==> #[trigger] h.entry(0, b) == 1,
        h.rollup(0, p, h.n_obs()) == h.period_total(p, h.n_obs()),
{
    let kv = keys_view(h.keys@);
    let total = Node { depth: 0, mask: 0, rep: 0 };
    lemma_no_bits(h.groups as u64);
    assert(crate::nodes::is_node(kv, h.depth as nat, h.groups as nat, total));
    assert(h.nodes@.contains(total));
    let k = choose|k: int| 0 <= k < h.nodes@.len() && h.nodes@[k] == total;
    lemma_popcount_zero(h.groups as nat);
    if k > 0 {
        let dn = h.depth as nat;
        let gn = h.groups as nat;
        assert(crate::nodes::row_lt(kv, dn, gn, h.nodes@[0], h.nodes@[k]));
        let lt = crate::nodes::node_label(kv, dn, gn, total);
        assert forall|j: int| 0 <= j < lt.len() implies lt[j] is None by {
            if j >= dn {
                lemma_no_bits((j - dn) as u64);
            }
        }
        lemma_label_not_below_none(crate::nodes::node_label(kv, dn, gn, h.nodes@[0]), lt);
    }
    assert forall|b: int| 0 <= b < h.bottom_keys().len() implies #[trigger] h.covers_spec(0, b) by {
        assert forall|g: int| 0 <= g < h.groups && has_bit(0u64, g as nat) implies #[trigger] kv[0][h.depth
            + g] == kv[b][h.depth + g] by {
            lemma_no_bits(g as u64);
        }
    }
    lemma_rollup_total_upto(h, p, h.n_obs());
}

impl Hts {
    /// The distinct keys found among the observations.
    pub open spec fn observed_keys(&self) -> Set<Seq<Seq<char>>> {
        Set::new(
            |k: Seq<Seq<char>>|
                exists|q: int| 0 <= q < self.n_obs() && k == #[trigger] self.bottom_keys()[self.obs_key(q)],
        )
    }

    /// The node that fixes every hierarchy level and every group to the values
    /// of bottom key `b`.
    pub open spec fn bottom_node(&self, b: int) -> Node {
        Node {
            depth: self.depth_spec() as usize,
            mask: ((1u64 << (self.groups_spec() as u64)) - 1) as u64,
            rep: b as usize,
        }
    }
}

/// There is one bottom series for each distinct key among the observations.
pub proof fn lemma_bottom_count(h: &Hts)
    requires
        h.wf(),
    ensures
        h.bottom_keys().len() == h.observed_keys().len(),
{
    let kv = h.bottom_keys();
    assert forall|k: Seq<Seq<char>>| kv.to_set().contains(k) <==> h.observed_keys().contains(k) by {
        if kv.to_set().contains(k) {
            let b = choose|b: int| 0 <= b < kv.len() && kv[b] == k;
            let q = h.key_first_obs(b);
            assert(kv[h.obs_key(q)] == k);
        }
        if h.observed_keys().contains(k) {
            let q = choose|q: int| 0 <= q < h.n_obs() && k == #[trigger] kv[h.obs_key(q)];
            assert(kv.contains(k));
        }
    }
    assert(kv.to_set() =~= h.observed_keys());
    kv.unique_seq_to_set();
}

proof fn lemma_full_mask(groups: u64, g: u64)
    requires
        g < groups < 64,
    ensures
        ((((1u64 << groups) - 1) as u64) >> g) & 1u64 == 1u64,
{
    assert(((((1u64 << groups) - 1) as u64) >> g) & 1u64 == 1u64) by (bit_vector)
        requires
            g < groups < 64,
    ;
}

proof fn lemma_full_mask_range(groups: u64)
    requires
        groups < 64,
    ensures
        1u64 <= (1u64 << groups),
        (((1u64 << groups) - 1) as u64) < (1u64 << groups),
{
    assert(1u64 <= (1u64 << groups)) by (bit_vector)
        requires
            groups < 64,
    ;
}

/// Keys that agree on every hierarchy level and every group are one key.
proof fn lemma_full_agreement(h: &Hts, a: int, b: int)
    requires
        h.wf(),
        0 <= a < h.bottom_keys().len(),
        0 <= b < h.bottom_keys().len(),
    ensures
        agrees_fully(h, a, b) <==> a == b,
{
    let kv = keys_view(h.keys@);
    let mask = ((1u64 << (h.groups as u64)) - 1) as u64;
    lemma_full_mask_range(h.groups as u64);
    if agrees_fully(h, a, b) {
        assert(h.keys@[a]@.len() == h.depth + h.groups);
        assert(h.keys@[b]@.len() == h.depth + h.groups);
        assert forall|j: int| 0 <= j < kv[a].len() implies kv[a][j] == kv[b][j] by {
            if j >= h.depth {
                lemma_full_mask(h.groups as u64, (j - h.depth) as u64);
                assert(has_bit(mask, (j - h.depth) as nat));
                assert(kv[a][h.depth + (j - h.depth)] == kv[b][h.depth + (j - h.depth)]);
            }
        }
        assert(kv[a] =~= kv[b]);
    }
}

spec fn agrees_fully(h: &Hts, a: int, b: int) -> bool {
    crate::nodes::agrees(
        h.bottom_keys(),
        h.depth_spec(),
        h.groups_spec(),
        h.depth_spec(),
        ((1u64 << (h.groups_spec() as u64)) - 1) as u64,
        a,
        b,
    )
}

/// The bottom rows of the summation matrix form an identity: each bottom key
/// has its own node, whose row has a single 1, in that key's column.
pub proof fn lemma_bottom_identity(h: &Hts, b: int)
    requires
        h.wf(),
        0 <= b < h.bottom_keys().len(),
    ensures
        h.nodes_spec().contains(h.bottom_node(b)),
        forall|i: int, c: int|
            0 <= i < h.nodes_spec().len() && h.nodes_spec()[i] == h.bottom_node(b) && 0 <= c
                < h.bottom_keys().len() ==> (#[trigger] h.entry(i, c) == 1 <==> c == b),
{
    let kv = keys_view(h.keys@);
    lemma_full_mask_range(h.groups as u64);
    assert forall|a: int| 0 <= a < b implies !#[trigger] crate::nodes::agrees(
        kv,
        h.depth as nat,
        h.groups as nat,
        h.depth as nat,
        h.bottom_node(b).mask,
        a,
        b,
    ) by {
        lemma_full_agreement(h, a, b);
    }
    assert(h.keys.len() == h.keys@.len());
    let bn = h.bottom_node(b);
    assert(crate::nodes::is_first(kv, h.depth as nat, h.groups as nat, h.depth as nat, bn.mask, b));
    assert(crate::nodes::is_node(kv, h.depth as nat, h.groups as nat, h.bottom_node(b)));
    assert forall|i: int, c: int|
        0 <= i < h.nodes_spec().len() && h.nodes_spec()[i] == h.bottom_node(b) && 0 <= c
            < h.bottom_keys().len() implies (#[trigger] h.entry(i, c) == 1 <==> c == b) by {
        lemma_full_agreement(h, b, c);
    }
}

/// The first observation of each key in `h1` is also the first observation of
/// a key in `h2`, when both hold the same keys observation by observation.
proof fn lemma_first_obs_shared(h1: &Hts, h2: &Hts, b: int)
    requires
        h1.wf(),
        h2.wf(),
        h1.n_obs() == h2.n_obs(),
        forall|q: int|
            0 <= q < h1.n_obs() ==> #[trigger] h1.bottom_keys()[h1.obs_key(q)] == h2.bottom_keys()[h2.obs_key(q)],
        0 <= b < h1.bottom_keys().len(),
    ensures
        h2.key_first@.contains(h1.key_first@[b]),
{
    let x = h1.key_first_obs(b);
    let c = h2.obs_key(x);
    let y = h2.key_first_obs(c);
    assert(y <= x);
    if y < x {
        assert(h2.obs_key(y) == c);
        assert(h1.bottom_keys()[h1.obs_key(y)] == h1.bottom_keys()[h1.obs_key(x)]);
        assert(h1.obs_key(x) == b);
        assert(h1.obs_key(y) == b);
    }
    assert(h2.key_first@[c] == h1.key_first@[b]);
}

/// Construction is deterministic: two collections that hold the same
/// observations, key for key, have the same bottom keys in the same order and
/// the same nodes in the same order.
pub proof fn lemma_construction_deterministic(h1: &Hts, h2: &Hts)
    requires
        h1.wf(),
        h2.wf(),
        h1.depth_spec() == h2.depth_spec(),
        h1.groups_spec() == h2.groups_spec(),
        h1.n_obs() == h2.n_obs(),
        forall|q: int|
            0 <= q < h1.n_obs() ==> #[trigger] h1.bottom_keys()[h1.obs_key(q)] == h2.bottom_keys()[h2.obs_key(q)],
    ensures
        h1.bottom_keys() == h2.bottom_keys(),
        h1.nodes_spec() == h2.nodes_spec(),
{
    assert forall|x: usize| h1.key_first@.contains(x) <==> h2.key_first@.contains(x) by {
        if h1.key_first@.contains(x) {
            let b = choose|b: int| 0 <= b < h1.key_first@.len() && h1.key_first@[b] == x;
            lemma_first_obs_shared(h1, h2, b);
        }
        if h2.key_first@.contains(x) {
            let b = choose|b: int| 0 <= b < h2.key_first@.len() && h2.key_first@[b] == x;
            lemma_first_obs_shared(h2, h1, b);
        }
    }
    crate::nodes::lemma_sorted_unique(h1.key_first@, h2.key_first@, |x: usize, y: usize| x < y);
    assert forall|b: int| 0 <= b < h1.bottom_keys().len() implies h1.bottom_keys()[b] == h2.bottom_keys()[b] by {
        let x = h1.key_first_obs(b);
        assert(h1.obs_key(x) == b);
        assert(h2.obs_key(x) == b);
    }
    assert(h1.bottom_keys() =~= h2.bottom_keys());
    crate::nodes::lemma_enumeration_unique(
        h1.bottom_keys(),
        h1.depth_spec(),
        h1.groups_spec(),
        h1.nodes_spec(),
        h2.nodes_spec(),
    );
}

/// What aggregation does when a bottom series has no observation in a period.
#[derive(Debug, Clone, Copy, PartialEq, Eq, Structural)]
pub enum MissingPolicy {
    /// The missing observation contributes nothing.
    ZeroFill,
    /// Aggregation fails with `IncompleteSeries`.
    Fail,
}

impl Hts {
    /// Bottom series `b` has an observation in period `p`.
    pub open spec fn observed(&self, b: int, p: int) -> bool {
        exists|q: int| 0 <= q < self.n_obs() && self.obs_key(q) == b && #[trigger] self.obs_period(q) == p
    }

    /// Every bottom series has an observation in every period.
    pub open spec fn complete(&self) -> bool {
        forall|b: int, p: int|
            0 <= b < self.bottom_keys().len() && 0 <= p < self.periods_spec().len() ==> #[trigger] self.observed(b, p)
    }

    /// Decides `complete`.
    pub fn is_complete(&self) -> (r: bool)
        requires
            self.wf(),
        ensures
            r == self.complete(),
    {
        let np = self.periods.len();
        let nr = self.values.len();
        let mut b: usize = 0;
        while b < self.keys.len()
            invariant
                self.wf(),
                np == self.periods@.len(),
                nr == self.values@.len(),
                0 <= b <= self.keys@.len(),
                forall|c: int, p: int| 0 <= c < b && 0 <= p < np ==> #[trigger] self.observed(c, p),
            decreases self.keys@.len() - b,
        {
            let mut seen: Vec<usize> = Vec::new();
            let mut p: usize = 0;
            while p < np
                invariant
                    0 <= p <= np,
                    seen@.len() == p,
                    forall|c: int| 0 <= c < p ==> #[trigger] seen@[c] == nr,
                decreases np - p,
            {
                seen.push(nr);
                p += 1;
            }
            let mut q: usize = 0;
            while q < nr
                invariant
                    self.wf(),
                    b < self.keys@.len(),
                    np == self.periods@.len(),
                    nr == self.values@.len(),
                    0 <= q <= nr,
                    seen@.len() == np,
                    forall|c: int|
                        0 <= c < np ==> (#[trigger] seen@[c] < nr ==> self.obs_key(seen@[c] as int) == b
                            && self.obs_period(seen@[c] as int) == c),
                    forall|c: int|
                        0 <= c < np ==> (#[trigger] seen@[c] == nr || seen@[c] < nr),
                    forall|c: int, x: int|
                        0 <= c < np && 0 <= x < q && #[trigger] seen@[c] == nr ==> !(self.obs_key(x) == b
                            && #[trigger] self.obs_period(x) == c),
                decreases nr - q,
            {
                if self.row_key[q] == b {
                    let pq = self.row_period[q];
                    seen.set(pq, q);
                }
                q += 1;
            }
            let mut p: usize = 0;
            while p < np
                invariant
                    self.wf(),
                    b < self.keys@.len(),
                    np == self.periods@.len(),
                    nr == self.values@.len(),
                    seen@.len() == np,
                    0 <= p <= np,
                    forall|c: int|
                        0 <= c < np ==> (#[trigger] seen@[c] < nr ==> self.obs_key(seen@[c] as int) == b
                            && self.obs_period(seen@[c] as int) == c),
                    forall|c: int|
                        0 <= c < np ==> (#[trigger] seen@[c] == nr || seen@[c] < nr),
                    forall|c: int, x: int|
                        0 <= c < np && 0 <= x < nr && #[trigger] seen@[c] == nr ==> !(self.obs_key(x) == b
                            && #[trigger] self.obs_period(x) == c),
                    forall|c: int| 0 <= c < p ==> #[trigger] self.observed(b as int, c),
                decreases np - p,
            {
                if seen[p] == nr {
                    assert(!self.observed(b as int, p as int));
                    return false;
                }
                assert(self.obs_period(seen@[p as int] as int) == p);
                p += 1;
            }
            b += 1;
        }
        true
    }

    /// Every node's value at every period, under the given policy for missing
    /// observations: with `ZeroFill` it never fails; with `Fail` it fails with
    /// `IncompleteSeries` exactly when some bottom series misses some period.
    pub fn aggregate_all(&self, policy: MissingPolicy) -> (r: Result<AggregatedSeries, HtsError>)
        requires
            self.wf(),
        ensures
            r is Err <==> policy == MissingPolicy::Fail && !self.complete(),
            r matches Err(e) ==> e == HtsError::IncompleteSeries,
            r matches Ok(a) ==> a.periods@ == self.periods_spec() && a.values@.len() == self.nodes_spec().len()
                && a.row_labels@.len() == self.nodes_spec().len() && (forall|i: int|
                0 <= i < a.row_labels@.len() ==> parts_view((#[trigger] a.row_labels@[i])@) == Seq::new(
                    self.depth_spec() + self.groups_spec(),
                    |j: int| self.label_part(i, j),
                ))
                && (forall|i: int|
                0 <= i < a.values@.len() ==> (#[trigger] a.values@[i])@.len() == self.periods_spec().len())
                && (forall|i: int, p: int|
                0 <= i < a.values@.len() && 0 <= p < self.periods_spec().len() ==> #[trigger] a.values@[i]@[p]
                    == self.rollup(i, p, self.n_obs())),
    {
        if policy == MissingPolicy::Fail && !self.is_complete() {
            return Err(HtsError::IncompleteSeries);
        }
        Ok(self.aggregated_series())
    }
}

/// Label parts joined by `/`, as in `A/Total/Industry`.
pub open spec fn joined(parts: Seq<Seq<char>>) -> Seq<char>
    decreases parts.len(),
{
    if parts.len() == 0 {
        Seq::empty()
    } else if parts.len() == 1 {
        parts[0]
    } else {
        joined(parts.drop_last()) + seq!['/'] + parts.last()
    }
}

/// Joins the parts of a label into one human-readable string.
pub fn join_label(parts: &Vec<String>) -> (r: String)
    ensures
        r@ == joined(names_view(parts@)),
{
    let ghost pv = names_view(parts@);
    let mut r = String::new();
    let mut i: usize = 0;
    while i < parts.len()
        invariant
            pv == names_view(parts@),
            0 <= i <= parts@.len(),
            r@ == joined(pv.subrange(0, i as int)),
        decreases parts@.len() - i,
    {
        let ghost before = r@;
        if i > 0 {
            r.append("/");
            proof {
                reveal_strlit("/");
            }
        }
        r.append(parts[i].as_str());
        proof {
            let sub = pv.subrange(0, i + 1);
            assert(sub.drop_last() =~= pv.subrange(0, i as int));
            if i == 0 {
                assert(r@ =~= sub[0]);
            } else {
                assert(r@ =~= before + seq!['/'] + sub.last());
            }
        }
        i += 1;
    }
    assert(pv.subrange(0, parts@.len() as int) =~= pv);
    r
}

/// The display parts of a label: `Total` where a column is summed away.
pub fn render_label(parts: &Vec<Option<String>>) -> (r: Vec<String>)
    ensures
        names_view(r@) == parts_view(parts@).map_values(|o: Option<Seq<char>>| part_text(o)),
{
    let mut r: Vec<String> = Vec::new();
    let mut i: usize = 0;
    while i < parts.len()
        invariant
            0 <= i <= parts@.len(),
            r@.len() == i,
            forall|k: int| 0 <= k < i ==> (#[trigger] r@[k])@ == part_text(part_view(parts@[k])),
        decreases parts@.len() - i,
    {
        let t = match &parts[i] {
            Some(s) => s.clone(),
            None => total_label(),
        };
        r.push(t);
        i += 1;
    }
    assert(names_view(r@) =~= parts_view(parts@).map_values(|o: Option<Seq<char>>| part_text(o)));
    r
}

impl Hts {
    /// The label of node `i`: one part per key column.
    pub open spec fn label(&self, i: int) -> Seq<Option<Seq<char>>> {
        Seq::new(self.depth_spec() + self.groups_spec(), |j: int| self.label_part(i, j))
    }
}

/// Row labels are unique: two different rows of the summation matrix never
/// carry the same label.
pub proof fn lemma_labels_distinct(h: &Hts, i1: int, i2: int)
    requires
        h.wf(),
        0 <= i1 < h.nodes_spec().len(),
        0 <= i2 < h.nodes_spec().len(),
        i1 != i2,
    ensures
        h.label(i1) != h.label(i2),
{
    let kv = h.bottom_keys();
    let dd = h.depth_spec();
    let gg = h.groups_spec();
    let n1 = h.nodes_spec()[i1];
    let n2 = h.nodes_spec()[i2];
    crate::nodes::lemma_row_order(kv, dd, gg, n1, n2, n1);
    crate::nodes::lemma_row_order(kv, dd, gg, n2, n1, n2);
    if i1 < i2 {
        assert(crate::nodes::row_lt(kv, dd, gg, n1, n2));
    } else {
        assert(crate::nodes::row_lt(kv, dd, gg, n2, n1));
    }
    crate::nodes::lemma_node_labels_distinct(kv, dd, gg, n1, n2);
    assert(h.label(i1) =~= crate::nodes::node_label(kv, dd, gg, n1));
    assert(h.label(i2) =~= crate::nodes::node_label(kv, dd, gg, n2));
}

/// No label comes before the label whose parts are all summed away.
proof fn lemma_label_not_below_none(a: Seq<Option<Seq<char>>>, b: Seq<Option<Seq<char>>>)
    requires
        a.len() == b.len(),
        forall|j: int| 0 <= j < b.len() ==> b[j] is None,
    ensures
        !crate::order::label_lt(a, b),
    decreases a.len(),
{
    if a.len() > 0 {
        lemma_label_not_below_none(a.drop_first(), b.drop_first());
    }
}

/// The number of series is the number of distinct aggregation nodes: every
/// observed hierarchy prefix crossed with every observed group assignment,
/// each counted once.
pub proof fn lemma_series_count(h: &Hts)
    requires
        h.wf(),
    ensures
        h.nodes_spec().len() == Set::new(
            |n: Node| crate::nodes::is_node(h.bottom_keys(), h.depth_spec(), h.groups_spec(), n),
        ).len(),
{
    let kv = h.bottom_keys();
    let dd = h.depth_spec();
    let gg = h.groups_spec();
    let s = h.nodes_spec();
    assert forall|i: int, j: int| 0 <= i < s.len() && 0 <= j < s.len() && i != j implies s[i] != s[j] by {
        crate::nodes::lemma_row_order(kv, dd, gg, s[i], s[j], s[i]);
        crate::nodes::lemma_row_order(kv, dd, gg, s[j], s[i], s[j]);
        if i < j {
            assert(crate::nodes::row_lt(kv, dd, gg, s[i], s[j]));
        } else {
            assert(crate::nodes::row_lt(kv, dd, gg, s[j], s[i]));
        }
    }
    assert(s.no_duplicates());
    assert(s.to_set() =~= Set::new(|n: Node| crate::nodes::is_node(kv, dd, gg, n))) by {
        assert forall|n: Node| s.to_set().contains(n) implies crate::nodes::is_node(kv, dd, gg, n) by {
            let k = choose|k: int| 0 <= k < s.len() && s[k] == n;
        }
    }
    s.unique_seq_to_set();
}

/// A mask fixes all of the first `n` groups exactly when it counts `n` of them.
proof fn lemma_popcount_all(m: u64, n: nat)
    ensures
        popcount(m, n) == n <==> forall|g: nat| g < n ==> has_bit(m, g),
    decreases n,
{
    if n > 0 {
        lemma_popcount_all(m, (n - 1) as nat);
        crate::nodes::lemma_popcount_bound(m, (n - 1) as nat);
        if popcount(m, n) != n {
            if forall|g: nat| g < n ==> has_bit(m, g) {
                assert(has_bit(m, (n - 1) as nat));
                assert(forall|g: nat| g < (n - 1) as nat ==> has_bit(m, g));
            }
        }
    }
}

impl Hts {
    /// `n` is the node of a bottom key: every level and every group fixed.
    pub open spec fn is_bottom_node(&self, n: Node) -> bool {
        exists|b: int| 0 <= b < self.bottom_keys().len() && n == #[trigger] self.bottom_node(b)
    }
}

/// The bottom rows are exactly the last `n_bottom` rows of the summation matrix.
pub proof fn lemma_bottom_rows_last(h: &Hts)
    requires
        h.wf(),
    ensures
        h.bottom_keys().len() <= h.nodes_spec().len(),
        forall|i: int|
            0 <= i < h.nodes_spec().len() ==> (h.is_bottom_node(#[trigger] h.nodes_spec()[i]) <==> i >= h.nodes_spec().len()
                - h.bottom_keys().len()),
{
    let kv = h.bottom_keys();
    let dd = h.depth_spec();
    let gg = h.groups_spec();
    let s = h.nodes_spec();
    let nb = kv.len();
    let full = ((1u64 << (gg as u64)) - 1) as u64;
    lemma_full_mask_range(gg as u64);
    assert forall|g: nat| g < gg implies has_bit(full, g) by {
        lemma_full_mask(gg as u64, g as u64);
    }
    lemma_popcount_all(full, gg);
    // a node is a bottom node exactly when it has full depth and fixes every group
    assert forall|i: int| 0 <= i < s.len() implies (h.is_bottom_node(#[trigger] s[i]) <==> (s[i].depth == dd
        && popcount(s[i].mask, gg) == gg)) by {
        let x = s[i];
        assert(crate::nodes::is_node(kv, dd, gg, x));
        if x.depth == dd && popcount(x.mask, gg) == gg {
            lemma_popcount_all(x.mask, gg);
            crate::nodes::lemma_masks_equal(x.mask, full, gg);
            assert(x == h.bottom_node(x.rep as int));
        }
    }
    // bottom rows come after all others
    assert forall|i: int, j: int|
        0 <= i < j < s.len() && h.is_bottom_node(#[trigger] s[i]) implies h.is_bottom_node(#[trigger] s[j]) by {
        assert(crate::nodes::row_lt(kv, dd, gg, s[i], s[j]));
        assert(h.is_bottom_node(s[i]));
        crate::nodes::lemma_popcount_bound(s[j].mask, gg);
        assert(crate::nodes::is_node(kv, dd, gg, s[j]));
    }
    // count: the bottom rows are the nodes of the nb bottom keys, each once
    let bs = Seq::new(nb, |b: int| h.bottom_node(b));
    assert(h.keys.len() == h.keys@.len());
    assert(bs.no_duplicates());
    bs.unique_seq_to_set();
    let k = first_bottom_from(h, s, 0);
    let t = s.subrange(k, s.len() as int);
    assert forall|a: int, b: int| 0 <= a < t.len() && 0 <= b < t.len() && a != b implies t[a] != t[b] by {
        crate::nodes::lemma_row_order(kv, dd, gg, s[k + a], s[k + b], s[k + a]);
        crate::nodes::lemma_row_order(kv, dd, gg, s[k + b], s[k + a], s[k + b]);
        if a < b {
            assert(crate::nodes::row_lt(kv, dd, gg, s[k + a], s[k + b]));
        } else {
            assert(crate::nodes::row_lt(kv, dd, gg, s[k + b], s[k + a]));
        }
    }
    assert(t.no_duplicates());
    assert(t.to_set() =~= bs.to_set()) by {
        assert forall|n: Node| t.to_set().contains(n) implies bs.to_set().contains(n) by {
            let a = choose|a: int| 0 <= a < t.len() && t[a] == n;
            assert(h.is_bottom_node(s[k + a]));
            let b = choose|b: int| 0 <= b < nb && s[k + a] == #[trigger] h.bottom_node(b);
            assert(bs[b] == n);
        }
        assert forall|n: Node| bs.to_set().contains(n) implies t.to_set().contains(n) by {
            let b = choose|b: int| 0 <= b < bs.len() && bs[b] == n;
            lemma_bottom_identity(h, b);
            let i = choose|i: int| 0 <= i < s.len() && s[i] == h.bottom_node(b);
            assert(h.is_bottom_node(s[i]));
            assert(i >= k);
            assert(t[i - k] == n);
        }
    }
    t.unique_seq_to_set();
}

/// The first bottom row at or after `i`, or the number of rows when there is
/// none.
proof fn first_bottom_from(h: &Hts, s: Seq<Node>, i: int) -> (k: int)
    requires
        s == h.nodes_spec(),
        0 <= i <= s.len(),
        forall|j: int| 0 <= j < i ==> !h.is_bottom_node(#[trigger] s[j]),
        forall|a: int, b: int|
            0 <= a < b < s.len() && h.is_bottom_node(#[trigger] s[a]) ==> h.is_bottom_node(#[trigger] s[b]),
    ensures
        0 <= k <= s.len(),
        forall|j: int| 0 <= j < s.len() ==> (h.is_bottom_node(#[trigger] s[j]) <==> j >= k),
    decreases s.len() - i,
{
    if i == s.len() {
        i
    } else if h.is_bottom_node(s[i]) {
        assert forall|j: int| 0 <= j < s.len() implies (h.is_bottom_node(#[trigger] s[j]) <==> j >= i) by {
            if j > i {
                assert(h.is_bottom_node(s[i]));
            }
        }
        i
    } else {
        first_bottom_from(h, s, i + 1)
    }
}

/// Row key `key` matches the label of node `i`: it holds every fixed value.
pub open spec fn key_matches(h: &Hts, i: int, key: Seq<Seq<char>>) -> bool {
    forall|j: int|
        0 <= j < h.depth_spec() + h.groups_spec() ==> (#[trigger] h.label_part(i, j) matches Some(v) ==> key[j] == v)
}

/// Group-by-sum over the first `n` rows of a table: the values of the rows
/// whose time is `period` and whose key matches the label of node `i`.
pub open spec fn raw_sum(
    h: &Hts,
    cols: Seq<Column>,
    sel: Seq<usize>,
    tc: int,
    vc: int,
    i: int,
    period: Period,
    n: nat,
) -> int
    decreases n,
{
    if n == 0 {
        0
    } else {
        raw_sum(h, cols, sel, tc, vc, i, period, (n - 1) as nat) + if same_period(
            time_at(cols[tc], n - 1),
            period,
        ) && key_matches(h, i, key_at(cols, sel, n - 1)) {
            int_at(cols[vc], n - 1) as int
        } else {
            0
        }
    }
}

/// Aggregation agrees with an independent group-by-sum over the table rows:
/// for a collection built from a table (as `Hts::new` states on success), the
/// value of node `i` at period `p` is the sum of the values of the rows whose
/// time is that period and whose key columns hold every value the node fixes.
pub proof fn lemma_rollup_is_group_by(h: &Hts, cols: Seq<Column>, sel: Seq<usize>, tc: int, vc: int, i: int, p: int)
    requires
        h.wf(),
        0 <= i < h.nodes_spec().len(),
        0 <= p < h.periods_spec().len(),
        forall|q: int|
            0 <= q < h.n_obs() ==> #[trigger] h.bottom_keys()[h.obs_key(q)] == key_at(cols, sel, q)
                && same_period(h.periods_spec()[h.obs_period(q)], time_at(cols[tc], q)) && h.obs_value(q)
                == int_at(cols[vc], q),
    ensures
        h.rollup(i, p, h.n_obs()) == raw_sum(h, cols, sel, tc, vc, i, h.periods_spec()[p], h.n_obs()),
{
    lemma_rollup_is_group_by_upto(h, cols, sel, tc, vc, i, p, h.n_obs());
}

proof fn lemma_rollup_is_group_by_upto(
    h: &Hts,
    cols: Seq<Column>,
    sel: Seq<usize>,
    tc: int,
    vc: int,
    i: int,
    p: int,
    n: nat,
)
    requires
        h.wf(),
        0 <= i < h.nodes_spec().len(),
        0 <= p < h.periods_spec().len(),
        n <= h.n_obs(),
        forall|q: int|
            0 <= q < h.n_obs() ==> #[trigger] h.bottom_keys()[h.obs_key(q)] == key_at(cols, sel, q)
                && same_period(h.periods_spec()[h.obs_period(q)], time_at(cols[tc], q)) && h.obs_value(q)
                == int_at(cols[vc], q),
    ensures
        h.rollup(i, p, n) == raw_sum(h, cols, sel, tc, vc, i, h.periods_spec()[p], n),
    decreases n,
{
    if n > 0 {
        let q = n - 1;
        lemma_rollup_is_group_by_upto(h, cols, sel, tc, vc, i, p, q as nat);
        let kv = h.bottom_keys();
        let b = h.obs_key(q);
        let node = h.nodes_spec()[i];
        assert(kv[b] == key_at(cols, sel, q));
        assert(crate::nodes::is_node(kv, h.depth_spec(), h.groups_spec(), node));
        assert(h.keys@[node.rep as int]@.len() == h.depth + h.groups);
        // the key of row q matches the label exactly when node i covers its bottom key
        if h.covers_spec(i, b) {
            assert forall|j: int| 0 <= j < h.depth_spec() + h.groups_spec() implies (#[trigger] h.label_part(i, j) matches Some(v)
                ==> key_at(cols, sel, q)[j] == v) by {
                if j >= h.depth_spec() && has_bit(node.mask, (j - h.depth_spec()) as nat) {
                    let g = j - h.depth_spec();
                    assert(kv[node.rep as int][h.depth_spec() + g] == kv[b][h.depth_spec() + g]);
                }
            }
        }
        if key_matches(h, i, key_at(cols, sel, q)) {
            assert forall|j: int| 0 <= j < node.depth implies #[trigger] kv[node.rep as int][j] == kv[b][j] by {
                assert(h.label_part(i, j) == Some(kv[node.rep as int][j]));
            }
            assert forall|g: int| 0 <= g < h.groups_spec() && has_bit(node.mask, g as nat) implies #[trigger] kv[node.rep as int][h.depth_spec() + g]
                == kv[b][h.depth_spec() + g] by {
                assert(h.label_part(i, h.depth_spec() + g) == Some(kv[node.rep as int][h.depth_spec() + g]));
            }
        }
        // the time of row q is period p exactly when its period index is p
        let pq = h.obs_period(q);
        let x = h.periods_spec()[pq];
        let y = h.periods_spec()[p];
        let tq = time_at(cols[tc], q);
        lemma_period_order(x, tq, y);
        lemma_period_order(tq, x, y);
        lemma_period_order(x, y, x);
        lemma_period_order(y, x, y);
        lemma_period_order(x, x, x);
        if pq < p {
            assert(period_lt(x, y));
        } else if pq > p {
            assert(period_lt(y, x));
        }
    }
}

} // verus!
