//! The side silhouette of a voxelized surface.
//!
//! A surface is voxelized on an integer grid; a voxel is given by its grid
//! column `x` along the ship and its grid row `z` in height (the transverse
//! coordinate is dropped). The silhouette is, for every column, the set of
//! rows that hold at least one voxel.
use vstd::prelude::*;

verus! {

/// The largest column index of the voxels, 0 when there are none.
pub open spec fn max_x(voxels: Seq<(u32, u32)>) -> nat
    decreases voxels.len(),
{
    if voxels.len() == 0 {
        0
    } else {
        let rest = max_x(voxels.drop_last());
        if voxels.last().0 > rest {
            voxels.last().0 as nat
        } else {
            rest
        }
    }
}

/// Some voxel lies in column `x` at row `z`.
pub open spec fn in_column(voxels: Seq<(u32, u32)>, x: int, z: u32) -> bool {
    exists|j: int| 0 <= j < voxels.len() && #[trigger] voxels[j] == (x as u32, z) && 0 <= x <= u32::MAX
}

/// The rows occupied in column `x`.
pub open spec fn column_set(voxels: Seq<(u32, u32)>, x: int) -> Set<u32> {
    Set::new(|z: u32| in_column(voxels, x, z))
}

/// The values increase strictly.
pub open spec fn strictly_increasing(s: Seq<u32>) -> bool {
    forall|i: int, j: int| 0 <= i < j < s.len() ==> s[i] < s[j]
}

/// `col` lists the occupied rows of column `x`, in increasing order, each once.
pub open spec fn is_column(voxels: Seq<(u32, u32)>, x: int, col: Seq<u32>) -> bool {
    &&& strictly_increasing(col)
    &&& forall|z: u32| col.contains(z) <==> in_column(voxels, x, z)
}

proof fn lemma_max_x_push(voxels: Seq<(u32, u32)>, v: (u32, u32))
    ensures
        max_x(voxels.push(v)) == if v.0 > max_x(voxels) {
            v.0 as nat
        } else {
            max_x(voxels)
        },
{
    assert(voxels.push(v).drop_last() =~= voxels);
}

proof fn lemma_max_x_bounds(voxels: Seq<(u32, u32)>)
    ensures
        forall|j: int| 0 <= j < voxels.len() ==> (#[trigger] voxels[j]).0 <= max_x(voxels),
        max_x(voxels) <= u32::MAX,
    decreases voxels.len(),
{
    if voxels.len() > 0 {
        let p = voxels.drop_last();
        lemma_max_x_bounds(p);
        assert forall|j: int| 0 <= j < voxels.len() implies (#[trigger] voxels[j]).0 <= max_x(
            voxels,
        ) by {
            if j < p.len() {
                assert(voxels[j] == p[j]);
            }
        }
    }
}

/// One step of the scan: what adding voxel `v` after `p` does to every column.
proof fn lemma_in_column_push(p: Seq<(u32, u32)>, v: (u32, u32))
    ensures
        forall|x: int, z: u32|
            #[trigger] in_column(p.push(v), x, z) <==> (in_column(p, x, z) || (x == v.0 && z == v.1)),
{
    let q = p.push(v);
    assert forall|x: int, z: u32| #[trigger] in_column(q, x, z) <==> (in_column(p, x, z) || (x
        == v.0 && z == v.1)) by {
        if in_column(p, x, z) {
            let j = choose|j: int|
                0 <= j < p.len() && #[trigger] p[j] == (x as u32, z) && 0 <= x <= u32::MAX;
            assert(q[j] == p[j]);
        }
        if x == v.0 && z == v.1 {
            assert(q[p.len() as int] == (x as u32, z));
        }
        if in_column(q, x, z) && !(x == v.0 && z == v.1) {
            let j = choose|j: int|
                0 <= j < q.len() && #[trigger] q[j] == (x as u32, z) && 0 <= x <= u32::MAX;
            if j == p.len() {
                assert((x as u32) == v.0);
            } else {
                assert(p[j] == q[j]);
            }
        }
    }
}

/// Adds `z` to a strictly increasing list unless it is there already.
fn insert_sorted_unique(col: &mut Vec<u32>, z: u32)
    requires
        strictly_increasing(old(col)@),
    ensures
        strictly_increasing(final(col)@),
        forall|y: u32| final(col)@.contains(y) <==> (old(col)@.contains(y) || y == z),
{
    let mut pos: usize = 0;
    while pos < col.len() && col[pos] < z
        invariant
            pos <= col.len(),
            forall|i: int| 0 <= i < pos ==> col[i] < z,
        decreases col.len() - pos,
    {
        pos = pos + 1;
    }
    if pos < col.len() && col[pos] == z {
        proof {
            assert(col@[pos as int] == z);
        }
        return;
    }
    let ghost before = col@;
    assert(before == old(col)@);
    col.insert(pos, z);
    proof {
        assert forall|i: int, j: int| 0 <= i < j < col@.len() implies col@[i] < col@[j] by {
            if pos < before.len() {
                assert(before[pos as int] > z);
            }
            if j < pos {
            } else if j == pos {
            } else if i < pos {
                if pos < j - 1 {
                    assert(before[pos as int] < before[j - 1]);
                }
            } else if i == pos {
                if pos < j - 1 {
                    assert(before[pos as int] < before[j - 1]);
                }
            } else {
                assert(before[i - 1] < before[j - 1]);
            }
        }
        assert forall|y: u32| col@.contains(y) <==> (before.contains(y) || y == z) by {
            if col@.contains(y) {
                let i = choose|i: int| 0 <= i < col@.len() && col@[i] == y;
                if i < pos {
                    assert(before[i] == y);
                } else if i > pos {
                    assert(before[i - 1] == y);
                }
            }
            if before.contains(y) {
                let i = choose|i: int| 0 <= i < before.len() && before[i] == y;
                if i < pos {
                    assert(col@[i] == y);
                } else {
                    assert(col@[i + 1] == y);
                }
            }
            if y == z {
                assert(col@[pos as int] == y);
            }
        }
        assert(forall|y: u32| col@.contains(y) <==> (old(col)@.contains(y) || y == z));
    }
}

/// The silhouette columns: entry `x` lists, in increasing order and once
/// each, the rows occupied in column `x`, for every column from 0 to the
/// largest column index; with no voxels there is one empty column.
pub fn voxel_columns(voxels: &Vec<(u32, u32)>) -> (columns: Vec<Vec<u32>>)
    requires
        max_x(voxels@) < usize::MAX,
    ensures
        columns.len() == max_x(voxels@) + 1,
        forall|x: int| 0 <= x < columns.len() ==> is_column(voxels@, x, #[trigger] columns[x]@),
{
    let n = voxels.len();
    let mut mx: u32 = 0;
    let mut i: usize = 0;
    proof {
        assert(voxels@.subrange(0, 0) =~= Seq::<(u32, u32)>::empty());
    }
    while i < n
        invariant
            n == voxels.len(),
            i <= n,
            mx == max_x(voxels@.subrange(0, i as int)),
        decreases n - i,
    {
        proof {
            assert(voxels@.subrange(0, i + 1) =~= voxels@.subrange(0, i as int).push(voxels[i as int]));
            lemma_max_x_push(voxels@.subrange(0, i as int), voxels[i as int]);
        }
        if voxels[i].0 > mx {
            mx = voxels[i].0;
        }
        i = i + 1;
    }
    proof {
        assert(voxels@.subrange(0, n as int) =~= voxels@);
        lemma_max_x_bounds(voxels@);
    }
    let width: usize = mx as usize + 1;
    let mut columns: Vec<Vec<u32>> = Vec::new();
    while columns.len() < width
        invariant
            columns.len() <= width,
            forall|x: int| 0 <= x < columns.len() ==> (#[trigger] columns[x]@) == Seq::<u32>::empty(),
        decreases width - columns.len(),
    {
        columns.push(Vec::new());
    }
    let mut k: usize = 0;
    proof {
        assert forall|x: int| 0 <= x < columns.len() implies is_column(
            voxels@.subrange(0, 0),
            x,
            #[trigger] columns[x]@,
        ) by {
            assert forall|z: u32| !in_column(voxels@.subrange(0, 0), x, z) by {}
        }
    }
    while k < n
        invariant
            n == voxels.len(),
            k <= n,
            columns.len() == width,
            width == max_x(voxels@) + 1,
            forall|j: int| 0 <= j < voxels.len() ==> (#[trigger] voxels[j]).0 <= max_x(voxels@),
            forall|x: int|
                0 <= x < columns.len() ==> is_column(
                    voxels@.subrange(0, k as int),
                    x,
                    #[trigger] columns[x]@,
                ),
        decreases n - k,
    {
        let ghost p = voxels@.subrange(0, k as int);
        let ghost before = columns@;
        let (x, z) = voxels[k];
        proof {
            assert(voxels@.subrange(0, k + 1) =~= p.push((x, z)));
            lemma_in_column_push(p, (x, z));
            assert(voxels[k as int].0 <= max_x(voxels@));
        }
        let xi = x as usize;
        insert_sorted_unique(&mut columns[xi], z);
        k = k + 1;
        proof {
            let q = voxels@.subrange(0, k as int);
            assert forall|c: int| 0 <= c < columns.len() implies is_column(
                q,
                c,
                #[trigger] columns[c]@,
            ) by {
                if c != xi {
                    assert(columns[c] == before[c]);
                    assert(is_column(p, c, before[c]@));
                } else {
                    assert(is_column(p, c, before[c]@));
                }
            }
        }
    }
    proof {
        assert(voxels@.subrange(0, n as int) =~= voxels@);
    }
    columns
}

/// The number of occupied rows of a column equals the length of any list
/// that holds them in increasing order, each once.
pub proof fn lemma_column_len(voxels: Seq<(u32, u32)>, x: int, col: Seq<u32>)
    requires
        is_column(voxels, x, col),
    ensures
        col.len() == column_set(voxels, x).len(),
{
    assert(col.no_duplicates()) by {
        assert forall|i: int, j: int|
            (0 <= i < col.len() && 0 <= j < col.len() && i != j) implies col[i] != col[j] by {
            if i < j {
                assert(col[i] < col[j]);
            } else {
                assert(col[j] < col[i]);
            }
        }
    }
    col.unique_seq_to_set();
    assert(col.to_set() =~= column_set(voxels, x));
}

/// The number of occupied rows of every column, the last one included:
/// entry `x` is the size of column `x`, for every column from 0 to the
/// largest column index; with no voxels there are no counts.
pub fn voxel_column_counts(voxels: &Vec<(u32, u32)>) -> (counts: Vec<usize>)
    requires
        max_x(voxels@) < usize::MAX,
    ensures
        counts.len() == if voxels.len() == 0 {
            0
        } else {
            max_x(voxels@) + 1
        },
        forall|x: int| 0 <= x < counts.len() ==> #[trigger] counts[x] == column_set(voxels@, x).len(),
{
    let mut counts: Vec<usize> = Vec::new();
    if voxels.len() == 0 {
        return counts;
    }
    let columns = voxel_columns(voxels);
    let n = columns.len();
    while counts.len() < n
        invariant
            n == columns.len(),
            columns.len() == max_x(voxels@) + 1,
            counts.len() <= n,
            forall|x: int| 0 <= x < columns.len() ==> is_column(voxels@, x, #[trigger] columns[x]@),
            forall|x: int| 0 <= x < counts.len() ==> #[trigger] counts[x] == column_set(voxels@, x).len(),
        decreases n - counts.len(),
    {
        let x = counts.len();
        proof {
            lemma_column_len(voxels@, x as int, columns[x as int]@);
        }
        counts.push(columns[x].len());
    }
    counts
}

/// The sum of the counts.
pub open spec fn count_sum(counts: Seq<usize>) -> int
    decreases counts.len(),
{
    if counts.len() == 0 {
        0
    } else {
        count_sum(counts.drop_last()) + counts.last()
    }
}

/// The first moment of the counts about column 0: the sum of `x * counts[x]`.
pub open spec fn count_moment(counts: Seq<usize>) -> int
    decreases counts.len(),
{
    if counts.len() == 0 {
        0
    } else {
        count_moment(counts.drop_last()) + (counts.len() - 1) * counts.last()
    }
}

proof fn lemma_count_sums_grow(counts: Seq<usize>, i: int)
    requires
        0 <= i <= counts.len(),
    ensures
        0 <= count_sum(counts.subrange(0, i)) <= count_sum(counts),
        0 <= count_moment(counts.subrange(0, i)) <= count_moment(counts),
    decreases counts.len() - i,
{
    if i < counts.len() {
        lemma_count_sums_grow(counts, i + 1);
        let s = counts.subrange(0, i + 1);
        assert(s.drop_last() =~= counts.subrange(0, i));
        lemma_count_sums_nonneg(counts.subrange(0, i));
        assert(count_sum(s) == count_sum(s.drop_last()) + s.last());
        assert(count_moment(s) == count_moment(s.drop_last()) + (s.len() - 1) * s.last());
        assert(0 <= (s.len() - 1) * s.last()) by (nonlinear_arith)
            requires
                s.len() >= 1,
                s.last() >= 0,
        ;
    } else {
        assert(counts.subrange(0, i) =~= counts);
        lemma_count_sums_nonneg(counts);
    }
}

proof fn lemma_count_sums_nonneg(counts: Seq<usize>)
    ensures
        0 <= count_sum(counts),
        0 <= count_moment(counts),
    decreases counts.len(),
{
    if counts.len() > 0 {
        lemma_count_sums_nonneg(counts.drop_last());
        assert(0 <= (counts.len() - 1) * counts.last()) by (nonlinear_arith)
            requires
                counts.len() >= 1,
                counts.last() >= 0,
        ;
    }
}

/// The silhouette area and its first moment in voxel units:
/// `(sum of counts, sum of x * counts[x])`.
pub fn column_area_moment(counts: &Vec<usize>) -> (res: (usize, usize))
    requires
        count_sum(counts@) <= usize::MAX,
        count_moment(counts@) <= usize::MAX,
    ensures
        res.0 == count_sum(counts@),
        res.1 == count_moment(counts@),
{
    let mut area: usize = 0;
    let mut moment: usize = 0;
    let mut x: usize = 0;
    proof {
        assert(counts@.subrange(0, 0) =~= Seq::<usize>::empty());
    }
    while x < counts.len()
        invariant
            x <= counts.len(),
            area == count_sum(counts@.subrange(0, x as int)),
            moment == count_moment(counts@.subrange(0, x as int)),
            count_sum(counts@) <= usize::MAX,
            count_moment(counts@) <= usize::MAX,
        decreases counts.len() - x,
    {
        let ghost s = counts@.subrange(0, x + 1);
        proof {
            assert(s.drop_last() =~= counts@.subrange(0, x as int));
            lemma_count_sums_grow(counts@, x + 1);
            assert(s.last() == counts[x as int]);
            assert(x * counts[x as int] == (s.len() - 1) * s.last());
        }
        let dz = counts[x];
        moment = moment + x * dz;
        area = area + dz;
        x = x + 1;
    }
    proof {
        assert(counts@.subrange(0, x as int) =~= counts@);
    }
    (area, moment)
}

/// The counts and the columns of the same voxels agree: the count of every
/// counted column is the length of that column.
pub proof fn lemma_counts_match_columns(
    voxels: Seq<(u32, u32)>,
    columns: Seq<Vec<u32>>,
    counts: Seq<usize>,
)
    requires
        columns.len() == max_x(voxels) + 1,
        forall|x: int| 0 <= x < columns.len() ==> is_column(voxels, x, #[trigger] columns[x]@),
        counts.len() <= max_x(voxels) + 1,
        forall|x: int| 0 <= x < counts.len() ==> #[trigger] counts[x] == column_set(voxels, x).len(),
    ensures
        forall|x: int| 0 <= x < counts.len() ==> #[trigger] counts[x] == columns[x].len(),
{
    assert forall|x: int| 0 <= x < counts.len() implies #[trigger] counts[x] == columns[x].len() by {
        lemma_column_len(voxels, x, columns[x]@);
    }
}

/// The sum of no counts is 0; adding a count adds it to the sum.
pub proof fn lemma_count_sum_push(counts: Seq<usize>, c: usize)
    ensures
        count_sum(Seq::<usize>::empty()) == 0,
        count_sum(counts.push(c)) == count_sum(counts) + c,
{
    assert(counts.push(c).drop_last() =~= counts);
}

/// The moment of no counts is 0; a count added as column `x` (the number of
/// columns before it) adds `x` times that count.
pub proof fn lemma_count_moment_push(counts: Seq<usize>, c: usize)
    ensures
        count_moment(Seq::<usize>::empty()) == 0,
        count_moment(counts.push(c)) == count_moment(counts) + counts.len() * c,
{
    assert(counts.push(c).drop_last() =~= counts);
}

/// Sums and moments over a silhouette cut in two: the sum is the sum of the
/// parts, and the moment of the second part is shifted by the number of
/// columns of the first part times its sum.
pub proof fn lemma_count_split(s: Seq<usize>, t: Seq<usize>)
    ensures
        count_sum(s + t) == count_sum(s) + count_sum(t),
        count_moment(s + t) == count_moment(s) + count_moment(t) + s.len() * count_sum(t),
    decreases t.len(),
{
    if t.len() == 0 {
        assert(s + t =~= s);
    } else {
        let t1 = t.drop_last();
        let c = t.last();
        lemma_count_split(s, t1);
        assert((s + t).drop_last() =~= s + t1);
        assert((s + t).last() == c);
        lemma_count_sum_push(s + t1, c);
        lemma_count_moment_push(s + t1, c);
        assert(s + t1 + seq![c] =~= s + t);
        assert((s + t1).push(c) =~= s + t);
        assert(t1.push(c) =~= t);
        lemma_count_sum_push(t1, c);
        lemma_count_moment_push(t1, c);
        let a = s.len() as int;
        let b = t1.len() as int;
        assert((a + b) * c == a * c + b * c) by (nonlinear_arith);
        assert(a * (count_sum(t1) + c) == a * count_sum(t1) + a * c) by (nonlinear_arith);
    }
}

/// Every voxel lies in a column up to `max_x`, and with voxels some voxel
/// lies in column `max_x`.
pub proof fn lemma_max_x(voxels: Seq<(u32, u32)>)
    ensures
        forall|j: int| 0 <= j < voxels.len() ==> (#[trigger] voxels[j]).0 <= max_x(voxels),
        voxels.len() > 0 ==> exists|j: int| 0 <= j < voxels.len() && (#[trigger] voxels[j]).0 == max_x(voxels),
        voxels.len() == 0 ==> max_x(voxels) == 0,
    decreases voxels.len(),
{
    lemma_max_x_bounds(voxels);
    if voxels.len() > 0 {
        let p = voxels.drop_last();
        lemma_max_x(p);
        let n = voxels.len() - 1;
        if voxels.last().0 > max_x(p) {
            assert(voxels[n].0 == max_x(voxels));
        } else if p.len() == 0 {
            assert(voxels[n].0 == 0);
            assert(voxels[n].0 == max_x(voxels));
        } else {
            let j = choose|j: int| 0 <= j < p.len() && (#[trigger] p[j]).0 == max_x(p);
            assert(voxels[j] == p[j]);
        }
    }
}

} // verus!
