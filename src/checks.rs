use vstd::prelude::*;

verus! {

/// Strict nesting among keys: whenever two keys agree at hierarchy level `j`
/// (below the top), they agree at level `j - 1` too.
pub open spec fn nested(kv: Seq<Seq<Seq<char>>>, depth: nat) -> bool {
    forall|a: int, b: int, j: int|
        0 <= a < kv.len() && 0 <= b < kv.len() && 1 <= j < depth && #[trigger] kv[a][j]
            == #[trigger] kv[b][j] ==> kv[a][j - 1] == kv[b][j - 1]
}

/// No two rows share both their key and their period.
pub open spec fn observations_unique(row_key: Seq<usize>, row_period: Seq<usize>) -> bool {
    forall|r1: int, r2: int|
        0 <= r1 < r2 < row_key.len() ==> !(#[trigger] row_key[r1] == #[trigger] row_key[r2]
            && row_period[r1] == row_period[r2])
}

/// Decides `nested` for keys given as strings.
pub fn check_nesting(keys: &Vec<Vec<String>>, depth: usize) -> (ok: bool)
    requires
        forall|b: int| 0 <= b < keys@.len() ==> (#[trigger] keys@[b])@.len() >= depth,
    ensures
        ok == nested(crate::keys::keys_view(keys@), depth as nat),
{
    let ghost kv = crate::keys::keys_view(keys@);
    let mut a: usize = 0;
    while a < keys.len()
        invariant
            kv == crate::keys::keys_view(keys@),
            forall|b: int| 0 <= b < keys@.len() ==> (#[trigger] keys@[b])@.len() >= depth,
            0 <= a <= keys@.len(),
            forall|x: int, y: int, j: int|
                0 <= x < a && 0 <= y < kv.len() && 1 <= j < depth && #[trigger] kv[x][j]
                    == #[trigger] kv[y][j] ==> kv[x][j - 1] == kv[y][j - 1],
        decreases keys@.len() - a,
    {
        let mut b: usize = 0;
        while b < keys.len()
            invariant
                kv == crate::keys::keys_view(keys@),
                forall|i: int| 0 <= i < keys@.len() ==> (#[trigger] keys@[i])@.len() >= depth,
                0 <= a < keys@.len(),
                0 <= b <= keys@.len(),
                forall|x: int, y: int, j: int|
                    0 <= x < a && 0 <= y < kv.len() && 1 <= j < depth && #[trigger] kv[x][j]
                        == #[trigger] kv[y][j] ==> kv[x][j - 1] == kv[y][j - 1],
                forall|y: int, j: int|
                    0 <= y < b && 1 <= j < depth && #[trigger] kv[a as int][j] == #[trigger] kv[y][j]
                        ==> kv[a as int][j - 1] == kv[y][j - 1],
            decreases keys@.len() - b,
        {
            let mut j: usize = 1;
            while j < depth
                invariant
                    kv == crate::keys::keys_view(keys@),
                    forall|i: int| 0 <= i < keys@.len() ==> (#[trigger] keys@[i])@.len() >= depth,
                    0 <= a < keys@.len(),
                    0 <= b < keys@.len(),
                    1 <= j,
                    forall|i: int|
                        1 <= i < j && #[trigger] kv[a as int][i] == #[trigger] kv[b as int][i]
                            ==> kv[a as int][i - 1] == kv[b as int][i - 1],
                decreases depth - j,
            {
                assert(kv[a as int][j as int] == keys@[a as int]@[j as int]@);
                assert(kv[b as int][j as int] == keys@[b as int]@[j as int]@);
                assert(kv[a as int][j - 1] == keys@[a as int]@[j - 1]@);
                assert(kv[b as int][j - 1] == keys@[b as int]@[j - 1]@);
                if keys[a][j] == keys[b][j] && keys[a][j - 1] != keys[b][j - 1] {
                    return false;
                }
                j += 1;
            }
            b += 1;
        }
        a += 1;
    }
    true
}

/// Decides `observations_unique`.
pub fn check_unique(row_key: &Vec<usize>, row_period: &Vec<usize>) -> (ok: bool)
    requires
        row_key@.len() == row_period@.len(),
    ensures
        ok == observations_unique(row_key@, row_period@),
{
    let mut r2: usize = 0;
    while r2 < row_key.len()
        invariant
            row_key@.len() == row_period@.len(),
            0 <= r2 <= row_key@.len(),
            forall|x: int, y: int|
                0 <= x < y < r2 ==> !(#[trigger] row_key@[x] == #[trigger] row_key@[y]
                    && row_period@[x] == row_period@[y]),
        decreases row_key@.len() - r2,
    {
        let mut r1: usize = 0;
        while r1 < r2
            invariant
                row_key@.len() == row_period@.len(),
                0 <= r1 <= r2 < row_key@.len(),
                forall|x: int, y: int|
                    0 <= x < y < r2 ==> !(#[trigger] row_key@[x] == #[trigger] row_key@[y]
                        && row_period@[x] == row_period@[y]),
                forall|x: int|
                    0 <= x < r1 ==> !(#[trigger] row_key@[x] == row_key@[r2 as int]
                        && row_period@[x] == row_period@[r2 as int]),
            decreases r2 - r1,
        {
            if row_key[r1] == row_key[r2] && row_period[r1] == row_period[r2] {
                return false;
            }
            r1 += 1;
        }
        r2 += 1;
    }
    true
}

} // verus!
