//! The on-screen snapshot: one cell per lit pixel.
//!
//! The snapshot lives in a `heapless::Vec` so that the display can own two of
//! them without touching the heap. [`cluster_cells`] names what such a vector
//! holds; the functions that follow it say what one operation of the vector
//! does.
use vstd::prelude::*;
use crate::train::PixelData;
use crate::train_map::MAX_TRAINS;

verus! {

/// `heapless::Vec`.
#[verifier::external_type_specification]
#[verifier::external_body]
#[verifier::reject_recursive_types(T)]
pub struct ExHeaplessVec<T, const N: usize>(heapless::Vec<T, N>);

/// The display-side cluster snapshot. Sized for the worst case of one entry
/// per train in the registry.
pub type ClusterVec = heapless::Vec<PixelData, MAX_TRAINS>;

/// The cells of a snapshot, in order.
pub uninterp spec fn cluster_cells(v: ClusterVec) -> Seq<PixelData>;

/// `heapless::Vec::new`: no cells.
#[verifier::external_body]
pub(crate) fn cells_new() -> (r: ClusterVec)
    ensures
        cluster_cells(r) == Seq::<PixelData>::empty(),
{
    heapless::Vec::new()
}

/// `heapless::Vec::clear`: drops every cell.
#[verifier::external_body]
pub(crate) fn cells_clear(v: &mut ClusterVec)
    ensures
        cluster_cells(*final(v)) == Seq::<PixelData>::empty(),
{
    v.clear()
}

/// `heapless::Vec::push`: appends a cell, or hands it back when the vector is
/// full.
#[verifier::external_body]
pub(crate) fn cells_push(v: &mut ClusterVec, cell: PixelData) -> (r: Result<(), PixelData>)
    ensures
        match r {
            Ok(()) => cluster_cells(*old(v)).len() < MAX_TRAINS && cluster_cells(*final(v))
                == cluster_cells(*old(v)).push(cell),
            Err(back) => back == cell && cluster_cells(*old(v)).len() >= MAX_TRAINS
                && cluster_cells(*final(v)) == cluster_cells(*old(v)),
        },
{
    v.push(cell)
}

/// `heapless::Vec::as_slice`: the cells as a slice.
#[verifier::external_body]
pub(crate) fn cells_slice(v: &ClusterVec) -> (r: &[PixelData])
    ensures
        r@ == cluster_cells(*v),
{
    v.as_slice()
}

/// `heapless::Vec::as_mut_slice`: the cells as a slice, open for change in
/// place.
#[verifier::external_body]
pub(crate) fn cells_mut_slice(v: &mut ClusterVec) -> (r: &mut [PixelData])
    ensures
        r@ == cluster_cells(*old(v)),
        cluster_cells(*final(v)) == final(r)@,
{
    v.as_mut_slice()
}

/// `heapless::Vec::truncate`: keeps the first `len` cells.
#[verifier::external_body]
pub(crate) fn cells_truncate(v: &mut ClusterVec, len: usize)
    ensures
        cluster_cells(*final(v)) == if len <= cluster_cells(*old(v)).len() {
            cluster_cells(*old(v)).take(len as int)
        } else {
            cluster_cells(*old(v))
        },
{
    v.truncate(len)
}

/// Whether the cells are in ascending order of their pixel.
pub open spec fn sorted_by_key(cells: Seq<PixelData>) -> bool {
    forall|i: int, j: int|
        0 <= i <= j < cells.len() ==> (#[trigger] cells[i]).coord_key <= (
        #[trigger] cells[j]).coord_key
}

/// `<[PixelData]>::sort_unstable_by_key` with the pixel as the key: the same
/// cells, in ascending order of pixel. Which of two cells on one pixel comes
/// first is left open.
#[verifier::external_body]
pub(crate) fn sort_by_key(cells: &mut [PixelData])
    ensures
        final(cells)@.to_multiset() == old(cells)@.to_multiset(),
        sorted_by_key(final(cells)@),
{
    cells.sort_unstable_by_key(|cell| cell.coord_key)
}

/// The types of all cells on pixel `key`, as one mask.
pub open spec fn types_at(cells: Seq<PixelData>, key: u16) -> u8
    decreases cells.len(),
{
    if cells.len() == 0 {
        0
    } else if cells.last().coord_key == key {
        types_at(cells.drop_last(), key) | cells.last().types
    } else {
        types_at(cells.drop_last(), key)
    }
}

/// The services of all cells on pixel `key`, as one mask.
pub open spec fn services_at(cells: Seq<PixelData>, key: u16) -> u8
    decreases cells.len(),
{
    if cells.len() == 0 {
        0
    } else if cells.last().coord_key == key {
        services_at(cells.drop_last(), key) | cells.last().services
    } else {
        services_at(cells.drop_last(), key)
    }
}

/// Whether some cell lies on pixel `key`.
pub open spec fn has_cell(cells: Seq<PixelData>, key: u16) -> bool {
    exists|i: int| 0 <= i < cells.len() && (#[trigger] cells[i]).coord_key == key
}

/// `clusters` holds exactly one cell for each pixel that `cells` touches, in
/// ascending order of pixel, with the masks of all cells on that pixel.
pub open spec fn is_clusters_of(clusters: Seq<PixelData>, cells: Seq<PixelData>) -> bool {
    &&& forall|i: int, j: int|
        0 <= i < j < clusters.len() ==> (#[trigger] clusters[i]).coord_key < (
        #[trigger] clusters[j]).coord_key
    &&& forall|j: int|
        #![trigger clusters[j]]
        0 <= j < clusters.len() ==> has_cell(cells, clusters[j].coord_key) && clusters[j].types
            == types_at(cells, clusters[j].coord_key) && clusters[j].services == services_at(
            cells,
            clusters[j].coord_key,
        )
    &&& forall|i: int|
        #![trigger cells[i]]
        0 <= i < cells.len() ==> has_cell(clusters, cells[i].coord_key)
}

/// A pixel without a cell has empty masks.
proof fn lemma_no_cell_no_mask(cells: Seq<PixelData>, key: u16)
    requires
        !has_cell(cells, key),
    ensures
        types_at(cells, key) == 0,
        services_at(cells, key) == 0,
    decreases cells.len(),
{
    if cells.len() > 0 {
        assert(cells[cells.len() - 1].coord_key != key);
        assert(!has_cell(cells.drop_last(), key)) by {
            if has_cell(cells.drop_last(), key) {
                let i = choose|i: int|
                    0 <= i < cells.drop_last().len() && (
                    #[trigger] cells.drop_last()[i]).coord_key == key;
                assert(cells[i].coord_key == key);
            }
        }
        lemma_no_cell_no_mask(cells.drop_last(), key);
    }
}

/// A bit is in the joint mask exactly when some cell on the pixel has it.
pub proof fn law_mask_bits_come_from_cells(cells: Seq<PixelData>, key: u16, b: u8)
    ensures
        types_at(cells, key) & b != 0 <==> exists|i: int|
            0 <= i < cells.len() && (#[trigger] cells[i]).coord_key == key && cells[i].types & b
                != 0,
        services_at(cells, key) & b != 0 <==> exists|i: int|
            0 <= i < cells.len() && (#[trigger] cells[i]).coord_key == key && cells[i].services & b
                != 0,
    decreases cells.len(),
{
    assert(0u8 & b == 0) by (bit_vector);
    if cells.len() > 0 {
        let front = cells.drop_last();
        let last = cells.last();
        law_mask_bits_come_from_cells(front, key, b);
        let t = types_at(front, key);
        let s = services_at(front, key);
        let lt = last.types;
        let ls = last.services;
        assert((t | lt) & b != 0 <==> (t & b != 0 || lt & b != 0)) by (bit_vector);
        assert((s | ls) & b != 0 <==> (s & b != 0 || ls & b != 0)) by (bit_vector);
        assert(forall|i: int| 0 <= i < front.len() ==> #[trigger] front[i] == cells[i]);
        assert(cells[cells.len() - 1] == last);
        if t & b != 0 {
            let i = choose|i: int|
                0 <= i < front.len() && (#[trigger] front[i]).coord_key == key && front[i].types & b
                    != 0;
            assert(cells[i].coord_key == key && cells[i].types & b != 0);
        }
        if s & b != 0 {
            let i = choose|i: int|
                0 <= i < front.len() && (#[trigger] front[i]).coord_key == key && front[i].services
                    & b != 0;
            assert(cells[i].coord_key == key && cells[i].services & b != 0);
        }
        if exists|i: int|
            0 <= i < cells.len() && (#[trigger] cells[i]).coord_key == key && cells[i].types & b
                != 0 {
            let i = choose|i: int|
                0 <= i < cells.len() && (#[trigger] cells[i]).coord_key == key && cells[i].types & b
                    != 0;
            if i < front.len() {
                assert(front[i].coord_key == key && front[i].types & b != 0);
            }
        }
        if exists|i: int|
            0 <= i < cells.len() && (#[trigger] cells[i]).coord_key == key && cells[i].services & b
                != 0 {
            let i = choose|i: int|
                0 <= i < cells.len() && (#[trigger] cells[i]).coord_key == key && cells[i].services
                    & b != 0;
            if i < front.len() {
                assert(front[i].coord_key == key && front[i].services & b != 0);
            }
        }
    }
}

/// The cells of one sequence all occur in the other, so its bits do too.
proof fn lemma_mask_grows(a: Seq<PixelData>, b: Seq<PixelData>, key: u16, bit: u8)
    requires
        forall|c: PixelData| a.contains(c) ==> b.contains(c),
    ensures
        types_at(a, key) & bit != 0 ==> types_at(b, key) & bit != 0,
        services_at(a, key) & bit != 0 ==> services_at(b, key) & bit != 0,
        has_cell(a, key) ==> has_cell(b, key),
{
    law_mask_bits_come_from_cells(a, key, bit);
    law_mask_bits_come_from_cells(b, key, bit);
    assert forall|i: int| 0 <= i < a.len() implies exists|j: int|
        0 <= j < b.len() && #[trigger] b[j] == (#[trigger] a[i]) by {
        assert(a.contains(a[i]));
    }
}

/// Two masks with the same bits are the same mask.
proof fn lemma_same_bits_same_mask(m: u8, n: u8)
    requires
        m & (m & !n) == 0 || n & (m & !n) != 0,
        n & (n & !m) == 0 || m & (n & !m) != 0,
    ensures
        m == n,
{
    assert(m == n) by (bit_vector)
        requires
            m & (m & !n) == 0 || n & (m & !n) != 0,
            n & (n & !m) == 0 || m & (n & !m) != 0,
    ;
}

/// The masks of a pixel do not depend on the order of the cells.
pub proof fn law_masks_ignore_order(a: Seq<PixelData>, b: Seq<PixelData>, key: u16)
    requires
        a.to_multiset() == b.to_multiset(),
    ensures
        types_at(a, key) == types_at(b, key),
        services_at(a, key) == services_at(b, key),
        has_cell(a, key) == has_cell(b, key),
{
    a.to_multiset_ensures();
    b.to_multiset_ensures();
    assert forall|c: PixelData| a.contains(c) implies b.contains(c) by {
        assert(a.to_multiset().count(c) > 0);
    }
    assert forall|c: PixelData| b.contains(c) implies a.contains(c) by {
        assert(b.to_multiset().count(c) > 0);
    }
    let (ta, tb) = (types_at(a, key), types_at(b, key));
    let (sa, sb) = (services_at(a, key), services_at(b, key));
    lemma_mask_grows(a, b, key, ta & !tb);
    lemma_mask_grows(b, a, key, tb & !ta);
    lemma_same_bits_same_mask(ta, tb);
    lemma_mask_grows(a, b, key, sa & !sb);
    lemma_mask_grows(b, a, key, sb & !sa);
    lemma_same_bits_same_mask(sa, sb);
}

/// Two snapshots of the same cells, gathered in any order, are the same.
pub proof fn law_clusters_are_unique(
    x: Seq<PixelData>,
    y: Seq<PixelData>,
    a: Seq<PixelData>,
    b: Seq<PixelData>,
)
    requires
        a.to_multiset() == b.to_multiset(),
        is_clusters_of(x, a),
        is_clusters_of(y, b),
    ensures
        x == y,
{
    lemma_clusters_prefix(x, y, a, b, x.len());
    lemma_clusters_prefix(y, x, b, a, y.len());
    assert(x =~= y);
}

/// The first `n` clusters of `x` are the first `n` clusters of `y`.
proof fn lemma_clusters_prefix(
    x: Seq<PixelData>,
    y: Seq<PixelData>,
    a: Seq<PixelData>,
    b: Seq<PixelData>,
    n: nat,
)
    requires
        a.to_multiset() == b.to_multiset(),
        is_clusters_of(x, a),
        is_clusters_of(y, b),
        n <= x.len(),
    ensures
        n <= y.len(),
        forall|i: int| 0 <= i < n ==> #[trigger] x[i] == y[i],
    decreases n,
{
    if n > 0 {
        let k = n - 1;
        lemma_clusters_prefix(x, y, a, b, k as nat);
        // The pixel of x[k] is one of the pixels of y ...
        lemma_shared_pixel(x, y, a, b, k);
        let j = choose|j: int| 0 <= j < y.len() && (#[trigger] y[j]).coord_key == x[k].coord_key;
        assert(j >= k) by {
            if j < k {
                assert(x[j].coord_key == y[j].coord_key);
            }
        }
        // ... and the pixel of y[k] is one of those of x, so neither lies before
        // the other.
        lemma_shared_pixel(y, x, b, a, k);
        let i = choose|i: int| 0 <= i < x.len() && (#[trigger] x[i]).coord_key == y[k].coord_key;
        assert(i >= k) by {
            if i < k {
                assert(x[i] == y[i]);
            }
        }
        if k < j {
            assert(y[k].coord_key < y[j].coord_key);
        }
        if k < i {
            assert(x[k].coord_key < x[i].coord_key);
        }
        law_masks_ignore_order(a, b, x[k].coord_key);
        assert(x[k] == y[k]);
    }
}

/// A pixel in one of two such snapshots is in the other.
proof fn lemma_shared_pixel(
    x: Seq<PixelData>,
    y: Seq<PixelData>,
    a: Seq<PixelData>,
    b: Seq<PixelData>,
    k: int,
)
    requires
        a.to_multiset() == b.to_multiset(),
        is_clusters_of(x, a),
        is_clusters_of(y, b),
        0 <= k < x.len(),
    ensures
        has_cell(y, x[k].coord_key),
{
    let key = x[k].coord_key;
    law_masks_ignore_order(a, b, key);
    assert(has_cell(b, key));
    let i = choose|i: int| 0 <= i < b.len() && (#[trigger] b[i]).coord_key == key;
    assert(has_cell(y, b[i].coord_key));
}

/// Taking one more cell adds its bits to its own pixel and to no other.
proof fn lemma_masks_take(cells: Seq<PixelData>, n: int, key: u16)
    requires
        0 <= n < cells.len(),
    ensures
        types_at(cells.take(n + 1), key) == if cells[n].coord_key == key {
            types_at(cells.take(n), key) | cells[n].types
        } else {
            types_at(cells.take(n), key)
        },
        services_at(cells.take(n + 1), key) == if cells[n].coord_key == key {
            services_at(cells.take(n), key) | cells[n].services
        } else {
            services_at(cells.take(n), key)
        },
{
    assert(cells.take(n + 1).drop_last() =~= cells.take(n));
    assert(cells.take(n + 1).last() == cells[n]);
}

/// Sort the cells by pixel, then collapse each run of cells that share a pixel
/// by OR-ing their masks.
pub fn collapse(out: &mut ClusterVec)
    ensures
        is_clusters_of(cluster_cells(*final(out)), cluster_cells(*old(out))),
{
    let ghost gathered = cluster_cells(*out);
    let cells = cells_mut_slice(out);
    sort_by_key(cells);
    let ghost sorted = cells@;
    let n: usize = cells.len();
    let mut write: usize = 0;
    let mut read: usize = 0;
    while read < n
        invariant
            n == sorted.len(),
            cells@.len() == n,
            write <= read <= n,
            sorted_by_key(sorted),
            forall|k: int| read <= k < n ==> #[trigger] cells@[k] == sorted[k],
            is_clusters_of(cells@.take(write as int), sorted.take(read as int)),
            0 < write && read < n ==> cells@[write - 1].coord_key < sorted[read as int].coord_key,
        decreases n - read,
    {
        let ghost before = cells@;
        let ghost start = read as int;
        let ghost key = sorted[start].coord_key;
        if write != read {
            let cell: PixelData = cells[read];
            cells[write] = cell;
        }
        read = read + 1;
        proof {
            assert(!has_cell(sorted.take(start), key)) by {
                if has_cell(sorted.take(start), key) {
                    let i = choose|i: int|
                        0 <= i < start && (#[trigger] sorted.take(start)[i]).coord_key == key;
                    assert(has_cell(before.take(write as int), sorted.take(start)[i].coord_key));
                    let j = choose|j: int|
                        0 <= j < write && (#[trigger] before.take(write as int)[j]).coord_key
                            == key;
                    if j < write - 1 {
                        assert(before.take(write as int)[j].coord_key < before.take(
                            write as int,
                        )[write - 1].coord_key);
                    }
                }
            }
            lemma_no_cell_no_mask(sorted.take(start), key);
            lemma_masks_take(sorted, start, key);
            let t = sorted[start].types;
            let s = sorted[start].services;
            assert(0u8 | t == t) by (bit_vector);
            assert(0u8 | s == s) by (bit_vector);
        }
        while read < n && cells[read].coord_key == cells[write].coord_key
            invariant
                n == sorted.len(),
                cells@.len() == n,
                write <= start < read <= n,
                sorted_by_key(sorted),
                key == sorted[start].coord_key,
                forall|k: int| read <= k < n ==> #[trigger] cells@[k] == sorted[k],
                forall|k: int| 0 <= k < write ==> #[trigger] cells@[k] == before[k],
                forall|k: int| start <= k < read ==> (#[trigger] sorted[k]).coord_key == key,
                cells@[write as int].coord_key == key,
                cells@[write as int].types == types_at(sorted.take(read as int), key),
                cells@[write as int].services == services_at(sorted.take(read as int), key),
            decreases n - read,
        {
            let mut cell: PixelData = cells[write];
            cell.types = cell.types | cells[read].types;
            cell.services = cell.services | cells[read].services;
            cells[write] = cell;
            proof {
                lemma_masks_take(sorted, read as int, key);
            }
            read = read + 1;
        }
        proof {
            lemma_run_collapsed(before, cells@, sorted, write as int, start, read as int);
        }
        write = write + 1;
    }
    proof {
        assert(sorted.take(n as int) =~= sorted);
    }
    let ghost collapsed = cells@;
    cells_truncate(out, write);
    proof {
        assert(cluster_cells(*out) == collapsed.take(write as int));
        lemma_clusters_reordered(cluster_cells(*out), sorted, gathered);
    }
}

/// One run of equal pixels, from `start` to `read`, has become cell `write`.
proof fn lemma_run_collapsed(
    before: Seq<PixelData>,
    after: Seq<PixelData>,
    sorted: Seq<PixelData>,
    write: int,
    start: int,
    read: int,
)
    requires
        sorted_by_key(sorted),
        before.len() == sorted.len(),
        after.len() == sorted.len(),
        0 <= write <= start < read <= sorted.len(),
        is_clusters_of(before.take(write), sorted.take(start)),
        0 < write ==> before[write - 1].coord_key < sorted[start].coord_key,
        forall|k: int| 0 <= k < write ==> #[trigger] after[k] == before[k],
        forall|k: int|
            start <= k < read ==> (#[trigger] sorted[k]).coord_key == sorted[start].coord_key,
        after[write].coord_key == sorted[start].coord_key,
        after[write].types == types_at(sorted.take(read), sorted[start].coord_key),
        after[write].services == services_at(sorted.take(read), sorted[start].coord_key),
    ensures
        is_clusters_of(after.take(write + 1), sorted.take(read)),
{
    let key = sorted[start].coord_key;
    let x = before.take(write);
    let y = after.take(write + 1);
    let a = sorted.take(start);
    let b = sorted.take(read);
    assert(forall|k: int| 0 <= k < write ==> #[trigger] y[k] == x[k]);
    assert forall|i: int, j: int| 0 <= i < j < y.len() implies (#[trigger] y[i]).coord_key < (
    #[trigger] y[j]).coord_key by {
        if j == write {
            assert(x[i] == y[i]);
            if i < write - 1 {
                assert(x[i].coord_key < x[write - 1].coord_key);
            }
        } else {
            assert(x[i].coord_key < x[j].coord_key);
        }
    }
    assert forall|j: int| #![trigger y[j]] 0 <= j < y.len() implies has_cell(b, y[j].coord_key)
        && y[j].types == types_at(b, y[j].coord_key) && y[j].services == services_at(
        b,
        y[j].coord_key,
    ) by {
        if j == write {
            assert(b[start].coord_key == key);
        } else {
            assert(y[j] == x[j]);
            assert(has_cell(a, x[j].coord_key));
            let i = choose|i: int| 0 <= i < a.len() && (#[trigger] a[i]).coord_key
                == x[j].coord_key;
            assert(b[i].coord_key == x[j].coord_key);
            assert(y[j].coord_key < y[write].coord_key);
            lemma_other_run(sorted, start, read, x[j].coord_key);
        }
    }
    assert forall|i: int| #![trigger b[i]] 0 <= i < b.len() implies has_cell(
        y,
        b[i].coord_key,
    ) by {
        if i < start {
            assert(a[i] == b[i]);
            assert(has_cell(x, a[i].coord_key));
            let j = choose|j: int| 0 <= j < x.len() && (#[trigger] x[j]).coord_key
                == a[i].coord_key;
            assert(y[j].coord_key == b[i].coord_key);
        } else {
            assert(sorted[i].coord_key == key);
            assert(y[write].coord_key == b[i].coord_key);
        }
    }
}

/// A run on one pixel leaves the masks of the other pixels alone.
proof fn lemma_other_run(sorted: Seq<PixelData>, start: int, read: int, key: u16)
    requires
        0 <= start <= read <= sorted.len(),
        forall|k: int| start <= k < read ==> (#[trigger] sorted[k]).coord_key != key,
    ensures
        types_at(sorted.take(read), key) == types_at(sorted.take(start), key),
        services_at(sorted.take(read), key) == services_at(sorted.take(start), key),
    decreases read - start,
{
    if start < read {
        lemma_other_run(sorted, start, read - 1, key);
        lemma_masks_take(sorted, read - 1, key);
        assert(sorted[read - 1].coord_key != key);
    }
}

/// The snapshot of some cells is the snapshot of the same cells in any order.
proof fn lemma_clusters_reordered(x: Seq<PixelData>, a: Seq<PixelData>, b: Seq<PixelData>)
    requires
        is_clusters_of(x, a),
        a.to_multiset() == b.to_multiset(),
    ensures
        is_clusters_of(x, b),
{
    assert forall|j: int| #![trigger x[j]] 0 <= j < x.len() implies has_cell(b, x[j].coord_key)
        && x[j].types == types_at(b, x[j].coord_key) && x[j].services == services_at(
        b,
        x[j].coord_key,
    ) by {
        law_masks_ignore_order(a, b, x[j].coord_key);
    }
    assert forall|i: int| #![trigger b[i]] 0 <= i < b.len() implies has_cell(
        x,
        b[i].coord_key,
    ) by {
        law_masks_ignore_order(a, b, b[i].coord_key);
        assert(has_cell(b, b[i].coord_key));
        let k = choose|k: int| 0 <= k < a.len() && (#[trigger] a[k]).coord_key == b[i].coord_key;
        assert(has_cell(x, a[k].coord_key));
    }
}

} // verus!
