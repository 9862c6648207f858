use vstd::prelude::*;
use crate::keys::keys_view;
use crate::order::{label_lt, lemma_label_order, part_lt, text_less};

verus! {

/// One aggregation node: the first `depth` hierarchy levels fixed, the groups
/// whose bits are set in `mask` fixed, every other column summed away. `rep`
/// is the first bottom key that the node covers; it supplies the fixed values.
#[derive(Debug, Clone, Copy, PartialEq, Eq, Structural)]
pub struct Node {
    pub depth: usize,
    pub mask: u64,
    pub rep: usize,
}

/// Group `g` is fixed in `mask`.
pub open spec fn has_bit(mask: u64, g: nat) -> bool {
    (mask >> (g as u64)) & 1u64 == 1u64
}

/// Number of groups among the first `n` that `mask` fixes.
pub open spec fn popcount(mask: u64, n: nat) -> nat
    decreases n,
{
    if n == 0 {
        0
    } else {
        popcount(mask, (n - 1) as nat) + if has_bit(mask, (n - 1) as nat) {
            1nat
        } else {
            0nat
        }
    }
}

/// Number of group subsets over `groups` groups.
pub open spec fn n_masks(groups: nat) -> nat {
    (1u64 << (groups as u64)) as nat
}

/// Bottom keys `a` and `b` agree on the first `d` hierarchy levels and on every
/// group fixed by `mask`. Keys hold `depth` hierarchy values, then the groups.
pub open spec fn agrees(
    kv: Seq<Seq<Seq<char>>>,
    depth: nat,
    groups: nat,
    d: nat,
    mask: u64,
    a: int,
    b: int,
) -> bool {
    &&& forall|j: int| 0 <= j < d ==> #[trigger] kv[a][j] == kv[b][j]
    &&& forall|g: int|
        0 <= g < groups && has_bit(mask, g as nat) ==> #[trigger] kv[a][depth + g] == kv[b][depth + g]
}

/// No bottom key before `b` has the same projection onto `(d, mask)`.
pub open spec fn is_first(
    kv: Seq<Seq<Seq<char>>>,
    depth: nat,
    groups: nat,
    d: nat,
    mask: u64,
    b: int,
) -> bool {
    forall|a: int| 0 <= a < b ==> !#[trigger] agrees(kv, depth, groups, d, mask, a, b)
}

/// Node `n` covers bottom key `b`: the key belongs to the aggregate.
pub open spec fn covers(kv: Seq<Seq<Seq<char>>>, depth: nat, groups: nat, n: Node, b: int) -> bool {
    agrees(kv, depth, groups, n.depth as nat, n.mask, n.rep as int, b)
}

/// `n` is an aggregation node of the keys.
pub open spec fn is_node(kv: Seq<Seq<Seq<char>>>, depth: nat, groups: nat, n: Node) -> bool {
    &&& n.depth <= depth
    &&& n.mask < n_masks(groups)
    &&& n.rep < kv.len()
    &&& is_first(kv, depth, groups, n.depth as nat, n.mask, n.rep as int)
}

/// Lexicographic order on four integers.
pub open spec fn lex_lt(a0: int, a1: int, a2: int, a3: int, b0: int, b1: int, b2: int, b3: int) -> bool {
    a0 < b0 || (a0 == b0 && (a1 < b1 || (a1 == b1 && (a2 < b2 || (a2 == b2 && a3 < b3)))))
}

/// `x` comes before the position `(d, k, m, b)`: by depth, then number of fixed
/// groups, then mask, then representative.
pub open spec fn node_before(x: Node, groups: nat, d: int, k: int, m: int, b: int) -> bool {
    lex_lt(x.depth as int, popcount(x.mask, groups) as int, x.mask as int, x.rep as int, d, k, m, b)
}

/// `x` comes before `y` in the canonical order.
pub open spec fn node_lt(x: Node, y: Node, groups: nat) -> bool {
    node_before(x, groups, y.depth as int, popcount(y.mask, groups) as int, y.mask as int, y.rep as int)
}

/// `nodes` lists every aggregation node exactly once, by depth, number of
/// fixed groups, mask and representative.
pub open spec fn enumerates_by_mask(
    kv: Seq<Seq<Seq<char>>>,
    depth: nat,
    groups: nat,
    nodes: Seq<Node>,
) -> bool {
    &&& forall|i: int| 0 <= i < nodes.len() ==> is_node(kv, depth, groups, #[trigger] nodes[i])
    &&& forall|n: Node| is_node(kv, depth, groups, n) ==> nodes.contains(n)
    &&& forall|i: int, j: int|
        0 <= i < j < nodes.len() ==> node_lt(#[trigger] nodes[i], #[trigger] nodes[j], groups)
}

/// Keys of `depth` hierarchy values followed by `groups` group values.
pub open spec fn shaped(keys: Seq<Vec<String>>, depth: nat, groups: nat) -> bool {
    forall|b: int| 0 <= b < keys.len() ==> (#[trigger] keys[b])@.len() == depth + groups
}

pub proof fn lemma_popcount_bound(mask: u64, n: nat)
    ensures
        popcount(mask, n) <= n,
    decreases n,
{
    if n > 0 {
        lemma_popcount_bound(mask, (n - 1) as nat);
    }
}

/// Whether group `g` is fixed in `mask`.
pub fn bit(mask: u64, g: usize) -> (r: bool)
    requires
        g < 64,
    ensures
        r == has_bit(mask, g as nat),
{
    (mask >> (g as u64)) & 1u64 == 1u64
}

/// Number of groups fixed by `mask`.
pub fn count_bits(mask: u64, groups: usize) -> (r: usize)
    requires
        groups < 64,
    ensures
        r == popcount(mask, groups as nat),
{
    let mut c: usize = 0;
    let mut g: usize = 0;
    while g < groups
        invariant
            groups < 64,
            0 <= g <= groups,
            c == popcount(mask, g as nat),
            c <= g,
        decreases groups - g,
    {
        if bit(mask, g) {
            c += 1;
        }
        g += 1;
    }
    c
}

/// Decides `agrees`.
pub fn agree(
    keys: &Vec<Vec<String>>,
    depth: usize,
    groups: usize,
    d: usize,
    mask: u64,
    a: usize,
    b: usize,
) -> (r: bool)
    requires
        shaped(keys@, depth as nat, groups as nat),
        d <= depth,
        groups < 64,
        a < keys@.len(),
        b < keys@.len(),
    ensures
        r == agrees(keys_view(keys@), depth as nat, groups as nat, d as nat, mask, a as int, b as int),
{
    let ghost kv = keys_view(keys@);
    assert(keys@[a as int]@.len() == depth + groups);
    assert(keys@[b as int]@.len() == depth + groups);
    let mut j: usize = 0;
    while j < d
        invariant
            kv == keys_view(keys@),
            d <= depth,
            a < keys@.len(),
            b < keys@.len(),
            keys@[a as int]@.len() == depth + groups,
            keys@[b as int]@.len() == depth + groups,
            0 <= j <= d,
            forall|i: int| 0 <= i < j ==> #[trigger] kv[a as int][i] == kv[b as int][i],
        decreases d - j,
    {
        assert(kv[a as int][j as int] == keys@[a as int]@[j as int]@);
        assert(kv[b as int][j as int] == keys@[b as int]@[j as int]@);
        if keys[a][j] != keys[b][j] {
            return false;
        }
        j += 1;
    }
    let w = keys[a].len();
    let mut g: usize = 0;
    while g < groups
        invariant
            kv == keys_view(keys@),
            w == depth + groups,
            groups < 64,
            a < keys@.len(),
            b < keys@.len(),
            keys@[a as int]@.len() == depth + groups,
            keys@[b as int]@.len() == depth + groups,
            0 <= g <= groups,
            forall|i: int| 0 <= i < d ==> #[trigger] kv[a as int][i] == kv[b as int][i],
            forall|i: int|
                0 <= i < g && has_bit(mask, i as nat) ==> #[trigger] kv[a as int][depth + i]
                    == kv[b as int][depth + i],
        decreases groups - g,
    {
        if bit(mask, g) {
            assert(depth + g < keys@[a as int]@.len());
            assert(kv[a as int][depth + g] == keys@[a as int]@[depth + g]@);
            assert(kv[b as int][depth + g] == keys@[b as int]@[depth + g]@);
            if keys[a][depth + g] != keys[b][depth + g] {
                return false;
            }
        }
        g += 1;
    }
    true
}

/// Decides `is_first`.
pub fn first_of_projection(
    keys: &Vec<Vec<String>>,
    depth: usize,
    groups: usize,
    d: usize,
    mask: u64,
    b: usize,
) -> (r: bool)
    requires
        shaped(keys@, depth as nat, groups as nat),
        d <= depth,
        groups < 64,
        b < keys@.len(),
    ensures
        r == is_first(keys_view(keys@), depth as nat, groups as nat, d as nat, mask, b as int),
{
    let mut a: usize = 0;
    while a < b
        invariant
            shaped(keys@, depth as nat, groups as nat),
            d <= depth,
            groups < 64,
            b < keys@.len(),
            0 <= a <= b,
            forall|i: int|
                0 <= i < a ==> !#[trigger] agrees(
                    keys_view(keys@),
                    depth as nat,
                    groups as nat,
                    d as nat,
                    mask,
                    i,
                    b as int,
                ),
        decreases b - a,
    {
        if agree(keys, depth, groups, d, mask, a, b) {
            return false;
        }
        a += 1;
    }
    true
}

/// Every node before position `(d, k, m, b)` is listed.
pub open spec fn listed_before(
    kv: Seq<Seq<Seq<char>>>,
    depth: nat,
    groups: nat,
    nodes: Seq<Node>,
    d: int,
    k: int,
    m: int,
    b: int,
) -> bool {
    forall|n: Node|
        #[trigger] is_node(kv, depth, groups, n) && node_before(n, groups, d, k, m, b) ==> nodes.contains(n)
}

/// Every listed node is a node, and they stand in canonical order, all before
/// position `(d, k, m, b)`.
pub open spec fn listed_in_order(
    kv: Seq<Seq<Seq<char>>>,
    depth: nat,
    groups: nat,
    nodes: Seq<Node>,
    d: int,
    k: int,
    m: int,
    b: int,
) -> bool {
    &&& forall|i: int| 0 <= i < nodes.len() ==> is_node(kv, depth, groups, #[trigger] nodes[i])
    &&& forall|i: int, j: int|
        0 <= i < j < nodes.len() ==> node_lt(#[trigger] nodes[i], #[trigger] nodes[j], groups)
    &&& forall|i: int| 0 <= i < nodes.len() ==> node_before(#[trigger] nodes[i], groups, d, k, m, b)
}

/// Lists every aggregation node of the keys by depth, then number of fixed
/// groups, then mask, then first occurrence among the keys.
fn enumerate_by_mask(keys: &Vec<Vec<String>>, depth: usize, groups: usize) -> (nodes: Vec<Node>)
    requires
        shaped(keys@, depth as nat, groups as nat),
        groups < 64,
    ensures
        enumerates_by_mask(keys_view(keys@), depth as nat, groups as nat, nodes@),
{
    let ghost kv = keys_view(keys@);
    let ghost dn = depth as nat;
    let ghost gn = groups as nat;
    let full: u64 = 1u64 << (groups as u64);
    let nb = keys.len();
    let mut nodes: Vec<Node> = Vec::new();
    let mut d: usize = 0;
    loop
        invariant_except_break
            kv == keys_view(keys@),
            dn == depth,
            gn == groups,
            shaped(keys@, dn, gn),
            groups < 64,
            full as nat == n_masks(gn),
            nb == kv.len(),
            d <= depth,
            listed_in_order(kv, dn, gn, nodes@, d as int, 0, 0, 0),
            listed_before(kv, dn, gn, nodes@, d as int, 0, 0, 0),
        ensures
            listed_in_order(kv, dn, gn, nodes@, depth + 1, 0, 0, 0),
            listed_before(kv, dn, gn, nodes@, depth + 1, 0, 0, 0),
        decreases depth - d,
    {
        let mut k: usize = 0;
        while k <= groups
            invariant
                kv == keys_view(keys@),
                dn == depth,
                gn == groups,
                shaped(keys@, dn, gn),
                groups < 64,
                full as nat == n_masks(gn),
                nb == kv.len(),
                d <= depth,
                k <= groups + 1,
                listed_in_order(kv, dn, gn, nodes@, d as int, k as int, 0, 0),
                listed_before(kv, dn, gn, nodes@, d as int, k as int, 0, 0),
            decreases groups + 1 - k,
        {
            let mut m: u64 = 0;
            while m < full
                invariant
                    kv == keys_view(keys@),
                    dn == depth,
                    gn == groups,
                    shaped(keys@, dn, gn),
                    groups < 64,
                    full as nat == n_masks(gn),
                    nb == kv.len(),
                    d <= depth,
                    k <= groups,
                    m <= full,
                    listed_in_order(kv, dn, gn, nodes@, d as int, k as int, m as int, 0),
                    listed_before(kv, dn, gn, nodes@, d as int, k as int, m as int, 0),
                decreases full - m,
            {
                if count_bits(m, groups) == k {
                    let mut b: usize = 0;
                    while b < nb
                        invariant
                            kv == keys_view(keys@),
                            dn == depth,
                            gn == groups,
                            shaped(keys@, dn, gn),
                            groups < 64,
                            full as nat == n_masks(gn),
                            nb == kv.len(),
                            d <= depth,
                            k <= groups,
                            m < full,
                            popcount(m, gn) == k,
                            b <= nb,
                            listed_in_order(kv, dn, gn, nodes@, d as int, k as int, m as int, b as int),
                            listed_before(kv, dn, gn, nodes@, d as int, k as int, m as int, b as int),
                        decreases nb - b,
                    {
                        if first_of_projection(keys, depth, groups, d, m, b) {
                            let ghost before = nodes@;
                            let n = Node { depth: d, mask: m, rep: b };
                            nodes.push(n);
                            assert(nodes@.last() == n);
                            assert forall|x: Node|
                                #[trigger] is_node(kv, dn, gn, x) && node_before(
                                    x,
                                    gn,
                                    d as int,
                                    k as int,
                                    m as int,
                                    b + 1,
                                ) implies nodes@.contains(x) by {
                                if node_before(x, gn, d as int, k as int, m as int, b as int) {
                                    let i = choose|i: int| 0 <= i < before.len() && before[i] == x;
                                    assert(nodes@[i] == x);
                                } else {
                                    assert(x == n);
                                    assert(nodes@[nodes@.len() - 1] == x);
                                }
                            }
                        } else {
                            assert forall|x: Node|
                                #[trigger] is_node(kv, dn, gn, x) && node_before(
                                    x,
                                    gn,
                                    d as int,
                                    k as int,
                                    m as int,
                                    b + 1,
                                ) implies nodes@.contains(x) by {
                                if !node_before(x, gn, d as int, k as int, m as int, b as int) {
                                    assert(x == Node { depth: d, mask: m, rep: b });
                                }
                            }
                        }
                        b += 1;
                    }
                }
                m += 1;
            }
            k += 1;
        }
        assert forall|x: Node|
            #[trigger] is_node(kv, dn, gn, x) && node_before(x, gn, d + 1, 0, 0, 0) implies nodes@.contains(
            x) by {
            lemma_popcount_bound(x.mask, gn);
        }
        assert forall|i: int| 0 <= i < nodes@.len() implies node_before(
            #[trigger] nodes@[i],
            gn,
            d + 1,
            0,
            0,
            0,
        ) by {
            assert(node_before(nodes@[i], gn, d as int, k as int, 0, 0));
        }
        if d == depth {
            break;
        }
        d += 1;
    }
    assert forall|x: Node| #[trigger] is_node(kv, dn, gn, x) implies nodes@.contains(x) by {
        assert(node_before(x, gn, depth + 1, 0, 0, 0));
    }
    nodes
}

/// Two sequences, each strictly increasing under an asymmetric relation, with
/// the same elements are equal.
pub proof fn lemma_sorted_unique<T>(s1: Seq<T>, s2: Seq<T>, lt: spec_fn(T, T) -> bool)
    requires
        forall|x: T, y: T| #[trigger] lt(x, y) ==> !lt(y, x),
        forall|i: int, j: int| 0 <= i < j < s1.len() ==> lt(#[trigger] s1[i], #[trigger] s1[j]),
        forall|i: int, j: int| 0 <= i < j < s2.len() ==> lt(#[trigger] s2[i], #[trigger] s2[j]),
        forall|x: T| s1.contains(x) <==> s2.contains(x),
    ensures
        s1 == s2,
    decreases s1.len(),
{
    if s1.len() == 0 {
        if s2.len() > 0 {
            assert(s2.contains(s2[0]));
        }
        assert(s1 =~= s2);
    } else {
        assert(s1.contains(s1[0]));
        let j = choose|j: int| 0 <= j < s2.len() && s2[j] == s1[0];
        assert(s2.contains(s2[0]));
        let i = choose|i: int| 0 <= i < s1.len() && s1[i] == s2[0];
        if j > 0 {
            assert(lt(s2[0], s2[j]));
            if i > 0 {
                assert(lt(s1[0], s1[i]));
            }
        }
        let t1 = s1.drop_first();
        let t2 = s2.drop_first();
        assert forall|x: T| t1.contains(x) <==> t2.contains(x) by {
            if t1.contains(x) {
                let k = choose|k: int| 0 <= k < t1.len() && t1[k] == x;
                assert(lt(s1[0], s1[k + 1]));
                assert(s1.contains(x));
                let m = choose|m: int| 0 <= m < s2.len() && s2[m] == x;
                assert(m != 0);
                assert(t2[m - 1] == x);
            }
            if t2.contains(x) {
                let k = choose|k: int| 0 <= k < t2.len() && t2[k] == x;
                assert(lt(s2[0], s2[k + 1]));
                assert(s2.contains(x));
                let m = choose|m: int| 0 <= m < s1.len() && s1[m] == x;
                assert(m != 0);
                assert(t1[m - 1] == x);
            }
        }
        assert forall|a: int, b: int| 0 <= a < b < t1.len() implies lt(#[trigger] t1[a], #[trigger] t1[b]) by {
            assert(lt(s1[a + 1], s1[b + 1]));
        }
        assert forall|a: int, b: int| 0 <= a < b < t2.len() implies lt(#[trigger] t2[a], #[trigger] t2[b]) by {
            assert(lt(s2[a + 1], s2[b + 1]));
        }
        lemma_sorted_unique(t1, t2, lt);
        assert(s1 =~= s2) by {
            assert forall|k: int| 0 <= k < s1.len() implies s1[k] == s2[k] by {
                if k > 0 {
                    assert(t1[k - 1] == t2[k - 1]);
                }
            }
        }
    }
}

/// Enumeration is deterministic: two listings of the nodes of the same keys
/// are the same listing.
pub proof fn lemma_enumeration_unique(
    kv: Seq<Seq<Seq<char>>>,
    depth: nat,
    groups: nat,
    s1: Seq<Node>,
    s2: Seq<Node>,
)
    requires
        enumerates(kv, depth, groups, s1),
        enumerates(kv, depth, groups, s2),
    ensures
        s1 == s2,
{
    assert forall|x: Node| s1.contains(x) <==> s2.contains(x) by {
        if s1.contains(x) {
            let k = choose|k: int| 0 <= k < s1.len() && s1[k] == x;
            assert(is_node(kv, depth, groups, s1[k]));
        }
        if s2.contains(x) {
            let k = choose|k: int| 0 <= k < s2.len() && s2[k] == x;
            assert(is_node(kv, depth, groups, s2[k]));
        }
    }
    assert forall|x: Node, y: Node| #[trigger] row_lt(kv, depth, groups, x, y) implies !row_lt(kv, depth, groups, y, x) by {
        lemma_row_order(kv, depth, groups, x, y, x);
    }
    lemma_sorted_unique(s1, s2, |x: Node, y: Node| row_lt(kv, depth, groups, x, y));
}

/// Two masks below `2^groups` that fix the same groups are equal.
pub proof fn lemma_masks_equal(m1: u64, m2: u64, groups: nat)
    requires
        groups < 64,
        m1 < n_masks(groups),
        m2 < n_masks(groups),
        forall|g: nat| g < groups ==> has_bit(m1, g) == has_bit(m2, g),
    ensures
        m1 == m2,
    decreases groups,
{
    let gg = groups as u64;
    if groups == 0 {
        assert((1u64 << 0u64) == 1u64) by (bit_vector);
    } else {
        let a = m1 >> 1u64;
        let b = m2 >> 1u64;
        assert(m1 < (1u64 << gg) ==> (m1 >> 1u64) < (1u64 << ((gg - 1) as u64))) by (bit_vector)
            requires
                1 <= gg < 64,
        ;
        assert(m2 < (1u64 << gg) ==> (m2 >> 1u64) < (1u64 << ((gg - 1) as u64))) by (bit_vector)
            requires
                1 <= gg < 64,
        ;
        assert forall|g: nat| g < (groups - 1) as nat implies has_bit(a, g) == has_bit(b, g) by {
            let gu = g as u64;
            assert(((m1 >> 1u64) >> gu) & 1u64 == (m1 >> ((gu + 1) as u64)) & 1u64) by (bit_vector)
                requires
                    gu < 63,
            ;
            assert(((m2 >> 1u64) >> gu) & 1u64 == (m2 >> ((gu + 1) as u64)) & 1u64) by (bit_vector)
                requires
                    gu < 63,
            ;
            assert(has_bit(m1, (g + 1) as nat) == has_bit(m2, (g + 1) as nat));
        }
        lemma_masks_equal(a, b, (groups - 1) as nat);
        assert(has_bit(m1, 0) == has_bit(m2, 0));
        assert(((m1 >> 0u64) & 1u64 == 1u64) == ((m2 >> 0u64) & 1u64 == 1u64) && (m1 >> 1u64) == (
        m2 >> 1u64) ==> m1 == m2) by (bit_vector);
    }
}

/// The label of node `n`: per key column, the fixed value, or `None` where
/// the column is summed away.
pub open spec fn node_label(kv: Seq<Seq<Seq<char>>>, depth: nat, groups: nat, n: Node) -> Seq<
    Option<Seq<char>>,
> {
    Seq::new(
        depth + groups,
        |j: int|
            if j < depth {
                if j < n.depth {
                    Some(kv[n.rep as int][j])
                } else {
                    None
                }
            } else if has_bit(n.mask, (j - depth) as nat) {
                Some(kv[n.rep as int][j])
            } else {
                None
            },
    )
}

/// Row order of the summation matrix: by depth, then number of fixed groups,
/// then label.
pub open spec fn row_lt(kv: Seq<Seq<Seq<char>>>, depth: nat, groups: nat, x: Node, y: Node) -> bool {
    x.depth < y.depth || (x.depth == y.depth && (popcount(x.mask, groups) < popcount(y.mask, groups) || (
    popcount(x.mask, groups) == popcount(y.mask, groups) && label_lt(
        node_label(kv, depth, groups, x),
        node_label(kv, depth, groups, y),
    ))))
}

/// `nodes` lists every aggregation node exactly once, in row order.
pub open spec fn enumerates(
    kv: Seq<Seq<Seq<char>>>,
    depth: nat,
    groups: nat,
    nodes: Seq<Node>,
) -> bool {
    &&& forall|i: int| 0 <= i < nodes.len() ==> is_node(kv, depth, groups, #[trigger] nodes[i])
    &&& forall|n: Node| is_node(kv, depth, groups, n) ==> nodes.contains(n)
    &&& forall|i: int, j: int|
        0 <= i < j < nodes.len() ==> row_lt(kv, depth, groups, #[trigger] nodes[i], #[trigger] nodes[j])
}

/// Different nodes have different labels.
pub proof fn lemma_node_labels_distinct(kv: Seq<Seq<Seq<char>>>, depth: nat, groups: nat, x: Node, y: Node)
    requires
        groups < 64,
        is_node(kv, depth, groups, x),
        is_node(kv, depth, groups, y),
        x != y,
    ensures
        node_label(kv, depth, groups, x) != node_label(kv, depth, groups, y),
{
    let lx = node_label(kv, depth, groups, x);
    let ly = node_label(kv, depth, groups, y);
    if lx == ly {
        if x.depth < y.depth {
            assert(lx[x.depth as int] != ly[x.depth as int]);
        } else if y.depth < x.depth {
            assert(lx[y.depth as int] != ly[y.depth as int]);
        } else {
            assert forall|g: nat| g < groups implies has_bit(x.mask, g) == has_bit(y.mask, g) by {
                let j = (depth + g) as int;
                assert(lx[j] == ly[j]);
            }
            lemma_masks_equal(x.mask, y.mask, groups);
            assert forall|j: int| 0 <= j < x.depth implies #[trigger] kv[x.rep as int][j] == kv[y.rep as int][j] by {
                assert(lx[j] == ly[j]);
            }
            assert forall|g: int| 0 <= g < groups && has_bit(x.mask, g as nat) implies #[trigger] kv[x.rep as int][depth + g]
                == kv[y.rep as int][depth + g] by {
                let j = depth + g;
                assert(lx[j] == ly[j]);
            }
            assert(agrees(kv, depth, groups, x.depth as nat, x.mask, x.rep as int, y.rep as int));
            assert(agrees(kv, depth, groups, x.depth as nat, x.mask, y.rep as int, x.rep as int));
            assert(x == y);
        }
    }
}

/// `row_lt` is transitive and asymmetric, and total on distinct nodes.
pub proof fn lemma_row_order(kv: Seq<Seq<Seq<char>>>, depth: nat, groups: nat, x: Node, y: Node, z: Node)
    ensures
        row_lt(kv, depth, groups, x, y) && row_lt(kv, depth, groups, y, z) ==> row_lt(kv, depth, groups, x, z),
        row_lt(kv, depth, groups, x, y) ==> !row_lt(kv, depth, groups, y, x),
        groups < 64 && is_node(kv, depth, groups, x) && is_node(kv, depth, groups, y) && x != y ==> row_lt(
            kv,
            depth,
            groups,
            x,
            y,
        ) || row_lt(kv, depth, groups, y, x),
{
    let lx = node_label(kv, depth, groups, x);
    let ly = node_label(kv, depth, groups, y);
    let lz = node_label(kv, depth, groups, z);
    lemma_label_order(lx, ly, lz);
    lemma_label_order(ly, lx, lz);
    if groups < 64 && is_node(kv, depth, groups, x) && is_node(kv, depth, groups, y) && x != y {
        lemma_node_labels_distinct(kv, depth, groups, x, y);
    }
}

/// Label part `j` of node `n`.
fn part_of<'a>(keys: &'a Vec<Vec<String>>, depth: usize, groups: usize, n: Node, j: usize) -> (r: Option<&'a String>)
    requires
        shaped(keys@, depth as nat, groups as nat),
        groups < 64,
        n.rep < keys@.len(),
        j < depth + groups,
    ensures
        node_label(keys_view(keys@), depth as nat, groups as nat, n)[j as int] == match r {
            Some(s) => Some(s@),
            None => None::<Seq<char>>,
        },
{
    assert(keys@[n.rep as int]@.len() == depth + groups);
    assert(keys_view(keys@)[n.rep as int][j as int] == keys@[n.rep as int]@[j as int]@);
    if j < depth {
        if j < n.depth {
            Some(&keys[n.rep][j])
        } else {
            None
        }
    } else if bit(n.mask, j - depth) {
        Some(&keys[n.rep][j])
    } else {
        None
    }
}

/// Decides `row_lt`.
fn row_less(keys: &Vec<Vec<String>>, depth: usize, groups: usize, x: Node, y: Node) -> (r: bool)
    requires
        shaped(keys@, depth as nat, groups as nat),
        groups < 64,
        x.rep < keys@.len(),
        y.rep < keys@.len(),
        x.depth <= depth,
    ensures
        r == row_lt(keys_view(keys@), depth as nat, groups as nat, x, y),
{
    if x.depth != y.depth {
        return x.depth < y.depth;
    }
    let cx = count_bits(x.mask, groups);
    let cy = count_bits(y.mask, groups);
    if cx != cy {
        return cx < cy;
    }
    let ghost lx = node_label(keys_view(keys@), depth as nat, groups as nat, x);
    let ghost ly = node_label(keys_view(keys@), depth as nat, groups as nat, y);
    assert(keys@[x.rep as int]@.len() == depth + groups);
    let w = keys[x.rep].len();
    assert(lx.skip(0) =~= lx);
    assert(ly.skip(0) =~= ly);
    let mut j: usize = 0;
    while j < w
        invariant
            shaped(keys@, depth as nat, groups as nat),
            groups < 64,
            x.rep < keys@.len(),
            y.rep < keys@.len(),
            w == depth + groups,
            lx == node_label(keys_view(keys@), depth as nat, groups as nat, x),
            ly == node_label(keys_view(keys@), depth as nat, groups as nat, y),
            lx.len() == w,
            ly.len() == w,
            x.depth == y.depth,
            popcount(x.mask, groups as nat) == popcount(y.mask, groups as nat),
            0 <= j <= w,
            label_lt(lx, ly) == label_lt(lx.skip(j as int), ly.skip(j as int)),
        decreases w - j,
    {
        let px = part_of(keys, depth, groups, x, j);
        let py = part_of(keys, depth, groups, y, j);
        assert(lx.skip(j as int)[0] == lx[j as int]);
        assert(ly.skip(j as int)[0] == ly[j as int]);
        let same = match px {
            None => py.is_none(),
            Some(a) => match py {
                None => false,
                Some(b) => *a == *b,
            },
        };
        if !same {
            assert(lx.skip(j as int)[0] != ly.skip(j as int)[0]);
            assert(lx.skip(j as int).len() > 0 && ly.skip(j as int).len() > 0);
            assert(label_lt(lx.skip(j as int), ly.skip(j as int)) == part_lt(lx[j as int], ly[j as int]));
            let less = match px {
                None => true,
                Some(a) => match py {
                    None => false,
                    Some(b) => text_less(a, b),
                },
            };
            assert(less == part_lt(lx[j as int], ly[j as int]));
            return less;
        }
        assert(lx.skip(j as int).drop_first() =~= lx.skip(j + 1));
        assert(ly.skip(j as int).drop_first() =~= ly.skip(j + 1));
        j += 1;
    }
    false
}

/// Sorts distinct nodes into row order.
fn sort_rows(keys: &Vec<Vec<String>>, depth: usize, groups: usize, src: Vec<Node>) -> (r: Vec<Node>)
    requires
        shaped(keys@, depth as nat, groups as nat),
        groups < 64,
        forall|i: int| 0 <= i < src@.len() ==> is_node(keys_view(keys@), depth as nat, groups as nat, #[trigger] src@[i]),
        forall|i: int, j: int| 0 <= i < j < src@.len() ==> #[trigger] src@[i] != #[trigger] src@[j],
    ensures
        forall|x: Node| r@.contains(x) <==> src@.contains(x),
        forall|i: int, j: int|
            0 <= i < j < r@.len() ==> row_lt(keys_view(keys@), depth as nat, groups as nat, #[trigger] r@[i], #[trigger] r@[j]),
{
    let ghost kv = keys_view(keys@);
    let ghost dn = depth as nat;
    let ghost gn = groups as nat;
    let mut res: Vec<Node> = Vec::new();
    let mut i: usize = 0;
    while i < src.len()
        invariant
            kv == keys_view(keys@),
            dn == depth,
            gn == groups,
            shaped(keys@, dn, gn),
            groups < 64,
            forall|k: int| 0 <= k < src@.len() ==> is_node(kv, dn, gn, #[trigger] src@[k]),
            forall|a: int, b: int| 0 <= a < b < src@.len() ==> #[trigger] src@[a] != #[trigger] src@[b],
            0 <= i <= src@.len(),
            forall|x: Node| res@.contains(x) <==> src@.subrange(0, i as int).contains(x),
            forall|k: int| 0 <= k < res@.len() ==> is_node(kv, dn, gn, #[trigger] res@[k]),
            forall|a: int, b: int| 0 <= a < b < res@.len() ==> row_lt(kv, dn, gn, #[trigger] res@[a], #[trigger] res@[b]),
        decreases src@.len() - i,
    {
        let x = src[i];
        assert(is_node(kv, dn, gn, x));
        let mut pos: usize = 0;
        while pos < res.len() && row_less(keys, depth, groups, res[pos], x)
            invariant
                kv == keys_view(keys@),
                dn == depth,
                gn == groups,
                shaped(keys@, dn, gn),
                groups < 64,
                is_node(kv, dn, gn, x),
                forall|k: int| 0 <= k < res@.len() ==> is_node(kv, dn, gn, #[trigger] res@[k]),
                0 <= pos <= res@.len(),
                forall|k: int| 0 <= k < pos ==> row_lt(kv, dn, gn, #[trigger] res@[k], x),
            decreases res@.len() - pos,
        {
            pos += 1;
        }
        proof {
            assert forall|k: int| 0 <= k < res@.len() implies res@[k] != x by {
                assert(res@.contains(res@[k]));
                let sub = src@.subrange(0, i as int);
                let m = choose|m: int| 0 <= m < sub.len() && sub[m] == res@[k];
                assert(src@[m] != src@[i as int]);
            }
        }
        let ghost before = res@;
        res.insert(pos, x);
        proof {
            if pos < before.len() {
                let y = before[pos as int];
                assert(y != x);
                lemma_row_order(kv, dn, gn, x, y, x);
                assert(row_lt(kv, dn, gn, x, y));
            }
            assert forall|k: int| 0 <= k < res@.len() implies is_node(kv, dn, gn, #[trigger] res@[k]) by {
                if k < pos {
                    assert(res@[k] == before[k]);
                } else if k > pos {
                    assert(res@[k] == before[k - 1]);
                }
            }
            assert forall|a: int, b: int| 0 <= a < b < res@.len() implies row_lt(kv, dn, gn, #[trigger] res@[a], #[trigger] res@[b]) by {
                if a < pos && b == pos {
                } else if a < pos && b > pos {
                    lemma_row_order(kv, dn, gn, before[a], x, before[b - 1]);
                    if b - 1 > pos {
                        lemma_row_order(kv, dn, gn, x, before[pos as int], before[b - 1]);
                    }
                } else if a == pos {
                    if b - 1 > pos {
                        lemma_row_order(kv, dn, gn, x, before[pos as int], before[b - 1]);
                    }
                } else if a > pos {
                    assert(res@[a] == before[a - 1]);
                    assert(res@[b] == before[b - 1]);
                } else {
                    assert(res@[a] == before[a]);
                    assert(res@[b] == before[b]);
                }
            }
            assert forall|y: Node| res@.contains(y) <==> src@.subrange(0, i + 1).contains(y) by {
                if res@.contains(y) {
                    let k = choose|k: int| 0 <= k < res@.len() && res@[k] == y;
                    if k < pos {
                        assert(before[k] == y);
                        assert(before.contains(y));
                        let sub = src@.subrange(0, i as int);
                        let m = choose|m: int| 0 <= m < sub.len() && sub[m] == y;
                        assert(src@.subrange(0, i + 1)[m] == y);
                    } else if k > pos {
                        assert(before[k - 1] == y);
                        assert(before.contains(y));
                        let sub = src@.subrange(0, i as int);
                        let m = choose|m: int| 0 <= m < sub.len() && sub[m] == y;
                        assert(src@.subrange(0, i + 1)[m] == y);
                    } else {
                        assert(src@.subrange(0, i + 1)[i as int] == y);
                    }
                }
                if src@.subrange(0, i + 1).contains(y) {
                    let sub = src@.subrange(0, i + 1);
                    let m = choose|m: int| 0 <= m < sub.len() && sub[m] == y;
                    if m < i {
                        assert(src@.subrange(0, i as int)[m] == y);
                        assert(before.contains(y));
                        let k = choose|k: int| 0 <= k < before.len() && before[k] == y;
                        if k < pos {
                            assert(res@[k] == y);
                        } else {
                            assert(res@[k + 1] == y);
                        }
                    } else {
                        assert(res@[pos as int] == y);
                    }
                }
            }
        }
        i += 1;
    }
    assert(src@.subrange(0, src@.len() as int) =~= src@);
    res
}

/// Lists every aggregation node of the keys in row order: by depth, then
/// number of fixed groups, then label.
pub fn enumerate_nodes(keys: &Vec<Vec<String>>, depth: usize, groups: usize) -> (nodes: Vec<Node>)
    requires
        shaped(keys@, depth as nat, groups as nat),
        groups < 64,
    ensures
        enumerates(keys_view(keys@), depth as nat, groups as nat, nodes@),
{
    let ghost kv = keys_view(keys@);
    let raw = enumerate_by_mask(keys, depth, groups);
    assert forall|i: int, j: int| 0 <= i < j < raw@.len() implies #[trigger] raw@[i] != #[trigger] raw@[j] by {
        assert(node_lt(raw@[i], raw@[j], groups as nat));
    }
    let nodes = sort_rows(keys, depth, groups, raw);
    assert forall|i: int| 0 <= i < nodes@.len() implies is_node(kv, depth as nat, groups as nat, #[trigger] nodes@[i]) by {
        assert(nodes@.contains(nodes@[i]));
        assert(raw@.contains(nodes@[i]));
    }
    nodes
}

} // verus!
