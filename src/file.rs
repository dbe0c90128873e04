//! A decoded file: the header, the axis records and the samples in their
//! tile-major storage order, with tile iteration and dense reconstruction.
use crate::axis::{
    axis_ok, lemma_tile_count_bounds, lemma_valid_length, lemma_valid_lengths_sum,
    padded_extent_of, tile_count_of, valid_length_of, valid_prefix_of, AxisHeader, AXIS_LEN,
};
use crate::coords::{
    extent_product, extents, flatten, ints, lemma_flatten_bounds, lemma_flatten_unflatten,
    lemma_ints, lemma_ints_push, lemma_product_at_least_one, lemma_product_le,
    lemma_position_fits, lemma_product_suffix, lemma_stride_step, lemma_unflatten_flatten, lemma_unflatten_len,
    multi_dim_index, multi_dim_position, product, unflatten, within,
};
use crate::header::{be_u32_at, header_error, read_be_u32, Header, UcsfError, HEADER_LEN};
use vstd::arithmetic::div_mod::{lemma_fundamental_div_mod, lemma_fundamental_div_mod_converse};
use vstd::prelude::*;
use vstd::slice::slice_subrange;

verus! {

/// Every axis is well formed.
pub open spec fn axes_ok(axes: Seq<AxisHeader>) -> bool {
    forall|d: int| 0 <= d < axes.len() ==> #[trigger] axes[d].wf()
}

/// Number of tiles along each axis.
pub open spec fn tile_counts(axes: Seq<AxisHeader>) -> Seq<int> {
    Seq::new(
        axes.len(),
        |d: int| tile_count_of(axes[d].data_points as int, axes[d].tile_size as int),
    )
}

/// Number of valid data points along each axis.
pub open spec fn data_extents(axes: Seq<AxisHeader>) -> Seq<int> {
    Seq::new(axes.len(), |d: int| axes[d].data_points as int)
}

/// Stored extent of each axis, padding included.
pub open spec fn padded_extents(axes: Seq<AxisHeader>) -> Seq<int> {
    Seq::new(
        axes.len(),
        |d: int| padded_extent_of(axes[d].data_points as int, axes[d].tile_size as int),
    )
}

/// Number of tiles in the file.
pub open spec fn total_tiles(axes: Seq<AxisHeader>) -> int {
    product(tile_counts(axes))
}

/// Tile coordinates of the `k`-th tile in row-major tile order.
pub open spec fn tile_index(axes: Seq<AxisHeader>, k: int) -> Seq<int> {
    unflatten(tile_counts(axes), k)
}

/// Valid length along each axis of the tile with tile coordinates `t`.
pub open spec fn tile_lengths(axes: Seq<AxisHeader>, t: Seq<int>) -> Seq<int> {
    Seq::new(
        axes.len(),
        |d: int| valid_length_of(axes[d].data_points as int, axes[d].tile_size as int, t[d]),
    )
}

/// Absolute coordinates of the first sample of the tile with tile
/// coordinates `t`.
pub open spec fn tile_starts(axes: Seq<AxisHeader>, t: Seq<int>) -> Seq<int> {
    Seq::new(axes.len(), |d: int| axes[d].tile_size as int * t[d])
}

/// Number of valid samples in the `k`-th tile.
pub open spec fn tile_volume(axes: Seq<AxisHeader>, k: int) -> int {
    product(tile_lengths(axes, tile_index(axes, k)))
}

/// Position of the `k`-th tile's samples in the sample buffer: the valid
/// samples of all tiles before it.
pub open spec fn tile_offset(axes: Seq<AxisHeader>, k: int) -> int
    decreases k,
{
    if k <= 0 {
        0
    } else {
        tile_offset(axes, k - 1) + tile_volume(axes, k - 1)
    }
}

/// Absolute coordinates of the `j`-th sample of the `k`-th tile.
pub open spec fn sample_coords(axes: Seq<AxisHeader>, k: int, j: int) -> Seq<int> {
    let t = tile_index(axes, k);
    let u = unflatten(tile_lengths(axes, t), j);
    Seq::new(axes.len(), |d: int| tile_starts(axes, t)[d] + u[d])
}

/// Position in the sample buffer of the sample at the `p`-th cell of the
/// dense row-major grid.
pub open spec fn dense_source(axes: Seq<AxisHeader>, p: int) -> int {
    let c = unflatten(data_extents(axes), p);
    let t = Seq::new(axes.len(), |d: int| c[d] / (axes[d].tile_size as int));
    let u = Seq::new(axes.len(), |d: int| c[d] % (axes[d].tile_size as int));
    tile_offset(axes, flatten(tile_counts(axes), t)) + flatten(tile_lengths(axes, t), u)
}

/// Extents of a well-formed file: every axis has a tile, and neither its tile
/// count nor its point count exceeds its padded extent.
pub proof fn lemma_extents(axes: Seq<AxisHeader>)
    requires
        axes_ok(axes),
    ensures
        forall|d: int|
            0 <= d < axes.len() ==> 1 <= #[trigger] tile_counts(axes)[d] <= padded_extents(axes)[d],
        forall|d: int|
            0 <= d < axes.len() ==> 1 <= #[trigger] data_extents(axes)[d] <= padded_extents(axes)[d],
        1 <= total_tiles(axes) <= product(padded_extents(axes)),
        1 <= product(data_extents(axes)) <= product(padded_extents(axes)),
{
    assert forall|d: int| 0 <= d < axes.len() implies 1 <= #[trigger] tile_counts(axes)[d]
        <= padded_extents(axes)[d] && 1 <= data_extents(axes)[d] <= padded_extents(axes)[d] by {
        lemma_axis_extents(axes, d);
    }
    assert forall|d: int| 0 <= d < axes.len() implies 1 <= #[trigger] data_extents(axes)[d]
        <= padded_extents(axes)[d] by {
        lemma_axis_extents(axes, d);
    }
    lemma_product_le(tile_counts(axes), padded_extents(axes));
    lemma_product_le(data_extents(axes), padded_extents(axes));
    lemma_product_at_least_one(tile_counts(axes));
    lemma_product_at_least_one(data_extents(axes));
}

proof fn lemma_axis_extents(axes: Seq<AxisHeader>, d: int)
    requires
        axes_ok(axes),
        0 <= d < axes.len(),
    ensures
        1 <= tile_counts(axes)[d] <= padded_extents(axes)[d],
        1 <= data_extents(axes)[d] <= padded_extents(axes)[d],
{
    {
        let dp = axes[d].data_points as int;
        let ts = axes[d].tile_size as int;
        assert(axes[d].wf());
        lemma_tile_count_bounds(dp, ts);
        let c = tile_count_of(dp, ts);
        assert(1 <= c <= c * ts) by (nonlinear_arith)
            requires
                c * ts >= dp,
                dp >= 1,
                ts >= 1,
        ;
    }
}

/// The model of a file with its first axis removed.
proof fn lemma_rest(axes: Seq<AxisHeader>)
    requires
        axes.len() > 0,
        axes_ok(axes),
    ensures
        axes_ok(axes.skip(1)),
        tile_counts(axes).skip(1) == tile_counts(axes.skip(1)),
        data_extents(axes).skip(1) == data_extents(axes.skip(1)),
        total_tiles(axes) == tile_counts(axes)[0] * total_tiles(axes.skip(1)),
        product(data_extents(axes)) == axes[0].data_points * product(data_extents(axes.skip(1))),
        total_tiles(axes.skip(1)) >= 1,
{
    let rest = axes.skip(1);
    assert forall|d: int| 0 <= d < rest.len() implies #[trigger] rest[d].wf() by {
        assert(rest[d] == axes[d + 1]);
    }
    assert(tile_counts(axes).skip(1) =~= tile_counts(rest));
    assert(data_extents(axes).skip(1) =~= data_extents(rest));
    lemma_extents(rest);
}

/// The volume of a tile is its valid length along the first axis times the
/// volume of its part in the remaining axes.
proof fn lemma_volume_split(axes: Seq<AxisHeader>, k: int)
    requires
        axes.len() > 0,
        axes_ok(axes),
        k >= 0,
    ensures
        ({
            let p = total_tiles(axes.skip(1));
            tile_volume(axes, k) == valid_length_of(
                axes[0].data_points as int,
                axes[0].tile_size as int,
                k / p,
            ) * tile_volume(axes.skip(1), k % p)
        }),
{
    lemma_rest(axes);
    let rest = axes.skip(1);
    let p = total_tiles(rest);
    let t = tile_index(axes, k);
    assert(t == seq![k / p] + tile_index(rest, k % p));
    assert(t.skip(1) =~= tile_index(rest, k % p));
    lemma_unflatten_len(tile_counts(axes), k);
    let l = tile_lengths(axes, t);
    let lr = tile_lengths(rest, tile_index(rest, k % p));
    assert forall|i: int| 0 <= i < lr.len() implies #[trigger] l.skip(1)[i] == lr[i] by {
        assert(rest[i] == axes[i + 1]);
        assert(t.skip(1)[i] == t[i + 1]);
    }
    assert(l.skip(1) =~= lr);
}

/// Walking the tiles in row-major order, the samples passed so far are
/// whole rows of tiles of the first axis plus part of the current row.
proof fn lemma_offset_split(axes: Seq<AxisHeader>, k: int)
    requires
        axes.len() > 0,
        axes_ok(axes),
        0 <= k <= total_tiles(axes),
    ensures
        ({
            let rest = axes.skip(1);
            let p = total_tiles(rest);
            let dp = axes[0].data_points as int;
            let ts = axes[0].tile_size as int;
            tile_offset(axes, k) == valid_prefix_of(dp, ts, k / p) * tile_offset(rest, p)
                + valid_length_of(dp, ts, k / p) * tile_offset(rest, k % p)
        }),
    decreases k,
{
    lemma_rest(axes);
    let rest = axes.skip(1);
    let p = total_tiles(rest);
    let dp = axes[0].data_points as int;
    let ts = axes[0].tile_size as int;
    let r = tile_offset(rest, p);
    if k == 0 {
        lemma_fundamental_div_mod_converse(0, p, 0, 0);
    } else {
        lemma_offset_split(axes, k - 1);
        vstd::arithmetic::div_mod::lemma_fundamental_div_mod(k - 1, p);
        let q = (k - 1) / p;
        let m = (k - 1) % p;
        assert(p * q == q * p) by (nonlinear_arith);
        assert((q + 1) * p == q * p + p) by (nonlinear_arith);
        lemma_volume_split(axes, k - 1);
        let v = valid_length_of(dp, ts, q);
        let vr = tile_volume(rest, m);
        let g = tile_offset(rest, m);
        assert(tile_offset(rest, m + 1) == g + vr);
        assert(v * g + v * vr == v * (g + vr)) by (nonlinear_arith);
        assert(q >= 0) by (nonlinear_arith)
            requires
                k - 1 >= 0,
                p > 0,
                k - 1 == p * q + m,
                0 <= m < p,
        ;
        if m + 1 < p {
            lemma_fundamental_div_mod_converse(k, p, q, m + 1);
        } else {
            lemma_fundamental_div_mod_converse(k, p, q + 1, 0);
            assert(valid_prefix_of(dp, ts, q + 1) == valid_prefix_of(dp, ts, q) + v);
            let vp = valid_prefix_of(dp, ts, q);
            assert((vp + v) * r == vp * r + v * r) by (nonlinear_arith);
            assert(tile_offset(rest, 0) == 0);
            let v1 = valid_length_of(dp, ts, q + 1);
            assert(v1 * 0 == 0) by (nonlinear_arith);
        }
    }
}

/// The valid samples of all tiles together are exactly the samples of the
/// dense grid: summing the tiles' volumes gives the product of the axes'
/// point counts.
pub proof fn lemma_tiles_cover(axes: Seq<AxisHeader>)
    requires
        axes_ok(axes),
    ensures
        tile_offset(axes, total_tiles(axes)) == product(data_extents(axes)),
    decreases axes.len(),
{
    if axes.len() == 0 {
        assert(tile_lengths(axes, tile_index(axes, 0)) =~= seq![]);
        assert(tile_offset(axes, 1) == tile_offset(axes, 0) + tile_volume(axes, 0));
    } else {
        lemma_rest(axes);
        let rest = axes.skip(1);
        lemma_tiles_cover(rest);
        let p = total_tiles(rest);
        let c0 = tile_counts(axes)[0];
        let dp = axes[0].data_points as int;
        let ts = axes[0].tile_size as int;
        assert(axes[0].wf());
        lemma_offset_split(axes, total_tiles(axes));
        assert(total_tiles(axes) == c0 * p);
        assert(c0 * p == p * c0) by (nonlinear_arith);
        lemma_fundamental_div_mod_converse(c0 * p, p, c0, 0);
        lemma_valid_lengths_sum(dp, ts);
        let v = valid_length_of(dp, ts, c0);
        assert(v * 0 == 0) by (nonlinear_arith);
    }
}

/// Tiles come later in the buffer the later they come in tile order.
pub proof fn lemma_offset_monotone(axes: Seq<AxisHeader>, j: int, k: int)
    requires
        axes_ok(axes),
        0 <= j <= k <= total_tiles(axes),
    ensures
        tile_offset(axes, j) <= tile_offset(axes, k),
    decreases k - j,
{
    if j < k {
        lemma_offset_monotone(axes, j, k - 1);
        lemma_volume_positive(axes, k - 1);
    }
}

/// Each tile has valid samples along every axis, and they stay inside the
/// axis.
pub proof fn lemma_volume_positive(axes: Seq<AxisHeader>, k: int)
    requires
        axes_ok(axes),
        0 <= k < total_tiles(axes),
    ensures
        within(tile_counts(axes), tile_index(axes, k)),
        forall|d: int|
            0 <= d < axes.len() ==> 1 <= #[trigger] tile_lengths(axes, tile_index(axes, k))[d]
                <= axes[d].tile_size,
        forall|d: int|
            0 <= d < axes.len() ==> #[trigger] tile_starts(axes, tile_index(axes, k))[d]
                + tile_lengths(axes, tile_index(axes, k))[d] <= axes[d].data_points,
        tile_volume(axes, k) >= 1,
{
    lemma_extents(axes);
    lemma_flatten_unflatten(tile_counts(axes), k);
    let t = tile_index(axes, k);
    let l = tile_lengths(axes, t);
    assert forall|d: int| 0 <= d < axes.len() implies 1 <= #[trigger] l[d] <= axes[d].tile_size
        && tile_starts(axes, t)[d] + l[d] <= axes[d].data_points by {
        assert(axes[d].wf());
        lemma_valid_length(axes[d].data_points as int, axes[d].tile_size as int, t[d]);
        let ts = axes[d].tile_size as int;
        assert(ts * t[d] == t[d] * ts) by (nonlinear_arith);
    }
    lemma_product_at_least_one(l);
}

/// A point of an axis lies in the tile `x / tile_size`, at `x % tile_size`
/// within that tile's valid samples.
pub proof fn lemma_point_in_tile(data_points: int, tile_size: int, x: int)
    requires
        axis_ok(data_points, tile_size),
        0 <= x < data_points,
    ensures
        0 <= x / tile_size < tile_count_of(data_points, tile_size),
        0 <= x % tile_size < valid_length_of(data_points, tile_size, x / tile_size),
        x == tile_size * (x / tile_size) + x % tile_size,
{
    lemma_fundamental_div_mod(x, tile_size);
    lemma_tile_count_bounds(data_points, tile_size);
    let q = x / tile_size;
    let r = x % tile_size;
    let c = tile_count_of(data_points, tile_size);
    assert(0 <= q < c) by (nonlinear_arith)
        requires
            x == tile_size * q + r,
            0 <= r < tile_size,
            0 <= x < data_points,
            c * tile_size >= data_points,
    ;
    lemma_valid_length(data_points, tile_size, q);
    assert(tile_size * q == q * tile_size) by (nonlinear_arith);
}

/// Reading the dense grid at the absolute coordinates of a tile's sample
/// gives back that sample.
pub proof fn lemma_dense_round_trip(axes: Seq<AxisHeader>, k: int, j: int)
    requires
        axes_ok(axes),
        0 <= k < total_tiles(axes),
        0 <= j < tile_volume(axes, k),
    ensures
        within(data_extents(axes), sample_coords(axes, k, j)),
        dense_source(axes, flatten(data_extents(axes), sample_coords(axes, k, j))) == tile_offset(
            axes,
            k,
        ) + j,
{
    lemma_volume_positive(axes, k);
    lemma_extents(axes);
    let t = tile_index(axes, k);
    let l = tile_lengths(axes, t);
    assert(extents(l));
    lemma_flatten_unflatten(l, j);
    let u = unflatten(l, j);
    let c = sample_coords(axes, k, j);
    let ext = data_extents(axes);
    assert forall|d: int| 0 <= d < ext.len() implies 0 <= #[trigger] c[d] < ext[d] by {
        assert(tile_starts(axes, t)[d] + l[d] <= axes[d].data_points);
        assert(u[d] < l[d]);
        assert(t[d] >= 0);
        let ts = axes[d].tile_size as int;
        assert(ts * t[d] >= 0) by (nonlinear_arith)
            requires
                ts >= 0,
                t[d] >= 0,
        ;
    }
    lemma_unflatten_flatten(ext, c);
    let c2 = unflatten(ext, flatten(ext, c));
    let t2 = Seq::new(axes.len(), |d: int| c2[d] / (axes[d].tile_size as int));
    let u2 = Seq::new(axes.len(), |d: int| c2[d] % (axes[d].tile_size as int));
    assert forall|d: int| 0 <= d < axes.len() implies #[trigger] t2[d] == t[d] && u2[d] == u[d] by {
        let ts = axes[d].tile_size as int;
        assert(u[d] < l[d] <= ts);
        assert(c[d] == ts * t[d] + u[d]);
        assert(ts * t[d] == t[d] * ts) by (nonlinear_arith);
        lemma_fundamental_div_mod_converse(c[d], ts, t[d], u[d]);
    }
    lemma_unflatten_len(tile_counts(axes), k);
    lemma_unflatten_len(l, j);
    assert(t2 =~= t);
    assert(u2 =~= u);
    lemma_flatten_unflatten(tile_counts(axes), k);
}

/// Start of the `k`-th axis record in a file.
pub open spec fn axis_record_start(k: int) -> int {
    HEADER_LEN + AXIS_LEN * k
}

/// Point count declared by the `k`-th axis record of `b`.
pub open spec fn record_points(b: Seq<u8>, k: int) -> int {
    be_u32_at(b, axis_record_start(k) + 8)
}

/// Tile size declared by the `k`-th axis record of `b`.
pub open spec fn record_tile_size(b: Seq<u8>, k: int) -> int {
    be_u32_at(b, axis_record_start(k) + 16)
}

/// Stored extents of the first `n` axes that `b` declares.
pub open spec fn stored_extents(b: Seq<u8>, n: int) -> Seq<int> {
    Seq::new(n as nat, |k: int| padded_extent_of(record_points(b, k), record_tile_size(b, k)))
}

/// Why `b` does not hold a whole file, or `None` when it does.
pub open spec fn file_error(b: Seq<u8>) -> Option<UcsfError> {
    if header_error(b) is Some {
        header_error(b)
    } else if b.len() < axis_record_start(b[10] as int) {
        Some(UcsfError::Parsing)
    } else if exists|k: int|
        0 <= k < b[10] && !axis_ok(#[trigger] record_points(b, k), record_tile_size(b, k)) {
        Some(UcsfError::Parsing)
    } else if b.len() < axis_record_start(b[10] as int) + 4 * product(
        stored_extents(b, b[10] as int),
    ) {
        Some(UcsfError::Parsing)
    } else {
        None
    }
}

/// A decoded file.
#[derive(Debug, Clone)]
pub struct UcsfFile {
    /// The file header.
    pub header: Header,
    /// One record per axis, in axis order.
    pub axis_headers: Vec<AxisHeader>,
    /// IEEE-754 single-precision bits of every stored sample, tile after tile
    /// in row-major tile order, row-major within each tile.
    pub data: Vec<u32>,
}

impl UcsfFile {
    /// One well-formed axis record per dimension, and exactly the samples
    /// that the padded extents call for.
    pub open spec fn wf(&self) -> bool {
        &&& self.header.dimensions == self.axis_headers@.len()
        &&& axes_ok(self.axis_headers@)
        &&& self.data@.len() == product(padded_extents(self.axis_headers@))
    }

    /// Number of stored samples, padding included, or `None` when it does
    /// not fit in a `usize`.
    fn stored_sample_count(axis_headers: &[AxisHeader]) -> (r: Option<usize>)
        requires
            axes_ok(axis_headers@),
        ensures
            r matches Some(s) ==> s == product(padded_extents(axis_headers@)),
            r is None ==> product(padded_extents(axis_headers@)) > usize::MAX,
    {
        let ghost axes = axis_headers@;
        let ghost ext = padded_extents(axes);
        proof {
            lemma_extents(axes);
            assert forall|i: int| 0 <= i < ext.len() implies #[trigger] ext[i] >= 1 by {
                assert(data_extents(axes)[i] <= ext[i]);
            }
        }
        let n = axis_headers.len();
        let mut size: usize = 1;
        let mut d: usize = n;
        proof {
            assert(ext.skip(n as int) =~= seq![]);
        }
        while d > 0
            invariant
                d <= n == axes.len() == ext.len(),
                axes == axis_headers@,
                axes_ok(axes),
                ext == padded_extents(axes),
                forall|i: int| 0 <= i < ext.len() ==> #[trigger] ext[i] >= 1,
                size == product(ext.skip(d as int)),
            decreases d,
        {
            d = d - 1;
            assert(axes[d as int].wf());
            let extent = axis_headers[d].padded_size() as usize;
            let ghost stride = product(ext.skip(d + 1));
            proof {
                lemma_stride_step(ext, d as int, stride);
            }
            match size.checked_mul(extent) {
                Some(v) => {
                    size = v;
                },
                None => {
                    proof {
                        lemma_product_suffix(ext, d as int);
                    }
                    return None;
                },
            }
        }
        proof {
            assert(ext.skip(0) =~= ext);
        }
        Some(size)
    }

    /// Decodes a whole file at the start of `input` and returns it with the
    /// bytes that follow it.
    pub fn parse(input: &[u8]) -> (r: Result<(&[u8], UcsfFile), UcsfError>)
        ensures
            r is Err <==> file_error(input@) is Some,
            r matches Err(e) ==> file_error(input@) == Some(e),
            r matches Ok((rest, f)) ==> {
                let n = input@[10] as int;
                let start = axis_record_start(n);
                let m = product(stored_extents(input@, n));
                &&& f.wf()
                &&& f.header.decodes(input@)
                &&& f.axis_headers@.len() == n
                &&& forall|k: int|
                    0 <= k < n ==> (#[trigger] f.axis_headers@[k]).decodes(
                        input@.subrange(axis_record_start(k), input@.len() as int),
                    )
                &&& f.data@.len() == m
                &&& forall|i: int| 0 <= i < m ==> #[trigger] f.data@[i] == be_u32_at(input@, start + 4 * i)
                &&& rest@ == input@.subrange(start + 4 * m, input@.len() as int)
            },
    {
        let ghost b = input@;
        let input_len = input.len();
        let (mut rem, header) = match Header::parse(input) {
            Ok(parsed) => parsed,
            Err(e) => {
                return Err(e);
            },
        };
        let n = header.dimensions;
        let mut axis_headers: Vec<AxisHeader> = Vec::new();
        let mut i: u8 = 0;
        while i < n
            invariant
                b == input@,
                header_error(b) is None,
                header.decodes(b),
                n == b[10],
                i <= n,
                axis_headers@.len() == i,
                b.len() >= axis_record_start(i as int),
                rem@ == b.subrange(axis_record_start(i as int), b.len() as int),
                forall|k: int|
                    0 <= k < i ==> {
                        &&& (#[trigger] axis_headers@[k]).decodes(
                            b.subrange(axis_record_start(k), b.len() as int),
                        )
                        &&& axis_headers@[k].wf()
                        &&& axis_headers@[k].data_points == record_points(b, k)
                        &&& axis_headers@[k].tile_size == record_tile_size(b, k)
                    },
            decreases n - i,
        {
            let (next, axis) = match AxisHeader::parse(rem) {
                Ok(parsed) => parsed,
                Err(e) => {
                    assert(b.len() < axis_record_start(n as int));
                    return Err(e);
                },
            };
            let ghost rec = b.subrange(axis_record_start(i as int), b.len() as int);
            proof {
                assert(be_u32_at(rec, 8) == record_points(b, i as int)) by {
                    assert(rec[8] == b[axis_record_start(i as int) + 8]);
                    assert(rec[9] == b[axis_record_start(i as int) + 9]);
                    assert(rec[10] == b[axis_record_start(i as int) + 10]);
                    assert(rec[11] == b[axis_record_start(i as int) + 11]);
                }
                assert(be_u32_at(rec, 16) == record_tile_size(b, i as int)) by {
                    assert(rec[16] == b[axis_record_start(i as int) + 16]);
                    assert(rec[17] == b[axis_record_start(i as int) + 17]);
                    assert(rec[18] == b[axis_record_start(i as int) + 18]);
                    assert(rec[19] == b[axis_record_start(i as int) + 19]);
                }
            }
            if !axis.is_well_formed() {
                assert(!axis_ok(record_points(b, i as int), record_tile_size(b, i as int)));
                return Err(UcsfError::Parsing);
            }
            proof {
                assert(next@ =~= b.subrange(axis_record_start(i + 1), b.len() as int));
            }
            axis_headers.push(axis);
            rem = next;
            i = i + 1;
        }
        let ghost axes = axis_headers@;
        proof {
            assert forall|d: int| 0 <= d < axes.len() implies #[trigger] axes[d].wf() by {}
            assert(padded_extents(axes) =~= stored_extents(b, n as int));
        }
        let count = match Self::stored_sample_count(axis_headers.as_slice()) {
            Some(count) => count,
            None => {
                return Err(UcsfError::Parsing);
            },
        };
        // each sample takes four bytes
        let data_size = match count.checked_mul(4) {
            Some(size) => size,
            None => {
                return Err(UcsfError::Parsing);
            },
        };
        if rem.len() < data_size {
            return Err(UcsfError::Parsing);
        }
        let (bytes, rest) = rem.split_at(data_size);
        proof {
            assert(bytes@ =~= b.subrange(
                axis_record_start(n as int),
                axis_record_start(n as int) + data_size,
            ));
            assert forall|k: int| 0 <= k < n implies axis_ok(
                #[trigger] record_points(b, k),
                record_tile_size(b, k),
            ) by {
                assert(axes[k].wf());
            }
        }
        let ghost start = axis_record_start(n as int);
        assert(count * 4 == data_size);
        assert(start + data_size <= b.len());
        let mut data: Vec<u32> = Vec::new();
        let mut j: usize = 0;
        while j < count
            invariant
                b == input@,
                start == axis_record_start(n as int),
                j <= count,
                count * 4 == data_size == bytes@.len(),
                start + data_size <= b.len(),
                bytes@ == b.subrange(start, start + data_size),
                data@.len() == j,
                forall|q: int| 0 <= q < j ==> #[trigger] data@[q] == be_u32_at(b, start + 4 * q),
            decreases count - j,
        {
            let v = read_be_u32(bytes, 4 * j);
            proof {
                assert(4 * j + 3 < data_size);
                assert(bytes@[4 * j as int] == b[start + 4 * j]);
                assert(bytes@[4 * j + 1] == b[start + 4 * j + 1]);
                assert(bytes@[4 * j + 2] == b[start + 4 * j + 2]);
                assert(bytes@[4 * j + 3] == b[start + 4 * j + 3]);
            }
            data.push(v);
            j = j + 1;
        }
        proof {
            assert(rest@ =~= b.subrange(start + data_size, b.len() as int));
        }
        Ok((rest, UcsfFile { header, axis_headers, data }))
    }

    /// Whether the file is well formed: what `parse` returns always is.
    pub fn is_well_formed(&self) -> (r: bool)
        ensures
            r == self.wf(),
    {
        let n = self.axis_headers.len();
        if self.header.dimensions as usize != n {
            return false;
        }
        let mut d: usize = 0;
        while d < n
            invariant
                d <= n == self.axis_headers@.len(),
                forall|i: int| 0 <= i < d ==> #[trigger] self.axis_headers@[i].wf(),
            decreases n - d,
        {
            if !self.axis_headers[d].is_well_formed() {
                return false;
            }
            d = d + 1;
        }
        let len = self.data.len();
        match Self::stored_sample_count(self.axis_headers.as_slice()) {
            Some(count) => len == count,
            None => false,
        }
    }

    /// Returns the amount of data points along `axis`.
    pub fn axis_data_points(&self, axis: usize) -> (r: u32)
        requires
            axis < self.axis_headers@.len(),
        ensures
            r == self.axis_headers@[axis as int].data_points,
    {
        self.axis_headers[axis].data_points
    }

    /// Returns the tile size along `axis`.
    pub fn axis_tile_size(&self, axis: usize) -> (r: u32)
        requires
            axis < self.axis_headers@.len(),
        ensures
            r == self.axis_headers@[axis as int].tile_size,
    {
        self.axis_headers[axis].tile_size
    }

    /// Returns an iterator over all tiles in the file.
    pub fn tiles(&self) -> (r: Tiles<'_>)
        requires
            self.wf(),
        ensures
            r.wf(),
            r.file == self,
            r.next_index == 0,
    {
        Tiles::for_file(self)
    }

    /// Returns the amount of tiles along each axis.
    pub fn axis_tiles(&self) -> (r: Vec<usize>)
        requires
            axes_ok(self.axis_headers@),
        ensures
            ints(r@) == tile_counts(self.axis_headers@),
    {
        let ghost axes = self.axis_headers@;
        let mut r: Vec<usize> = Vec::new();
        let mut d: usize = 0;
        while d < self.axis_headers.len()
            invariant
                d <= axes.len(),
                axes == self.axis_headers@,
                axes_ok(axes),
                ints(r@) == tile_counts(axes).take(d as int),
            decreases axes.len() - d,
        {
            assert(axes[d as int].wf());
            let c = self.axis_headers[d].num_tiles();
            proof {
                lemma_ints_push(r@, c as usize);
                assert(tile_counts(axes).take(d + 1) =~= tile_counts(axes).take(d as int).push(
                    tile_counts(axes)[d as int],
                ));
            }
            r.push(c as usize);
            d = d + 1;
        }
        proof {
            assert(tile_counts(axes).take(d as int) =~= tile_counts(axes));
        }
        r
    }

    /// Returns the amount of data points in a tile along each axis.
    pub fn axis_tile_sizes(&self) -> (r: Vec<usize>)
        ensures
            r@.len() == self.axis_headers@.len(),
            forall|d: int| 0 <= d < r@.len() ==> #[trigger] r@[d] == self.axis_headers@[d].tile_size,
    {
        let mut r: Vec<usize> = Vec::new();
        let mut d: usize = 0;
        while d < self.axis_headers.len()
            invariant
                d <= self.axis_headers@.len(),
                r@.len() == d,
                forall|i: int| 0 <= i < d ==> #[trigger] r@[i] == self.axis_headers@[i].tile_size,
            decreases self.axis_headers@.len() - d,
        {
            r.push(self.axis_headers[d].tile_size as usize);
            d = d + 1;
        }
        r
    }

    /// Returns the number of data points along each axis.
    ///
    /// Together with `data_continous` this serves multidimensional array
    /// types of other crates.
    pub fn axis_sizes(&self) -> (r: Vec<usize>)
        ensures
            ints(r@) == data_extents(self.axis_headers@),
    {
        let ghost axes = self.axis_headers@;
        let mut r: Vec<usize> = Vec::new();
        let mut d: usize = 0;
        while d < self.axis_headers.len()
            invariant
                d <= axes.len(),
                axes == self.axis_headers@,
                ints(r@) == data_extents(axes).take(d as int),
            decreases axes.len() - d,
        {
            let v = self.axis_headers[d].data_points as usize;
            proof {
                lemma_ints_push(r@, v);
                assert(data_extents(axes).take(d + 1) =~= data_extents(axes).take(d as int).push(
                    data_extents(axes)[d as int],
                ));
            }
            r.push(v);
            d = d + 1;
        }
        proof {
            assert(data_extents(axes).take(d as int) =~= data_extents(axes));
        }
        r
    }
}

impl UcsfFile {
    /// Builds a vector where the data is laid out row-major over the axes'
    /// data points, without padding.
    ///
    /// This is an alternative to reading the data in its native tile layout.
    pub fn data_continous(&self) -> (r: Vec<u32>)
        requires
            self.wf(),
        ensures
            r@.len() == product(data_extents(self.axis_headers@)),
            forall|p: int|
                0 <= p < r@.len() ==> #[trigger] r@[p] == self.data@[dense_source(
                    self.axis_headers@,
                    p,
                )],
            forall|k: int, j: int|
                0 <= k < total_tiles(self.axis_headers@) && 0 <= j < tile_volume(
                    self.axis_headers@,
                    k,
                ) ==> r@[flatten(
                    data_extents(self.axis_headers@),
                    #[trigger] sample_coords(self.axis_headers@, k, j),
                )] == self.data@[tile_offset(self.axis_headers@, k) + j],
    {
        let ghost axes = self.axis_headers@;
        let ghost ext = data_extents(axes);
        let n = self.axis_headers.len();
        proof {
            lemma_extents(axes);
        }
        let data_len = self.data.len();
        let sizes = self.axis_sizes();
        let tile_sizes = self.axis_tile_sizes();
        let counts = self.axis_tiles();
        proof {
            lemma_ints(sizes@);
            lemma_ints(counts@);
            assert forall|i: int| 0 <= i < sizes@.len() implies #[trigger] sizes@[i] >= 1 by {
                assert(ints(sizes@)[i] == ext[i]);
            }
            assert forall|i: int| 0 <= i < counts@.len() implies #[trigger] counts@[i] >= 1 by {
                assert(ints(counts@)[i] == tile_counts(axes)[i]);
            }
        }
        let total = extent_product(sizes.as_slice());
        let n_tiles = extent_product(counts.as_slice());
        // the tiles, in tile order
        let mut tiles = self.tiles();
        let mut all: Vec<Tile> = Vec::new();
        let mut i: usize = 0;
        while i < n_tiles
            invariant
                i <= n_tiles == total_tiles(axes),
                axes == self.axis_headers@,
                tiles.wf(),
                tiles.file == self,
                tiles.next_index == i,
                all@.len() == i,
                forall|m: int|
                    0 <= m < i ==> (#[trigger] all@[m]).is_tile_of(*self, m) && all@[m].wf(),
            decreases n_tiles - i,
        {
            if let Some(t) = tiles.next() {
                all.push(t);
            }
            i = i + 1;
        }
        let mut out: Vec<u32> = Vec::new();
        let mut p: usize = 0;
        while p < total
            invariant
                p <= total == product(ext),
                axes == self.axis_headers@,
                ext == data_extents(axes),
                self.wf(),
                n == axes.len(),
                ints(sizes@) == ext,
                ints(counts@) == tile_counts(axes),
                tile_sizes@.len() == n,
                forall|d: int| 0 <= d < n ==> #[trigger] tile_sizes@[d] == axes[d].tile_size,
                forall|i: int| 0 <= i < sizes@.len() ==> #[trigger] sizes@[i] >= 1,
                forall|i: int| 0 <= i < counts@.len() ==> #[trigger] counts@[i] >= 1,
                product(ints(counts@)) <= usize::MAX,
                all@.len() == total_tiles(axes),
                forall|m: int|
                    0 <= m < all@.len() ==> (#[trigger] all@[m]).is_tile_of(*self, m)
                        && all@[m].wf(),
                out@.len() == p,
                forall|q: int| 0 <= q < p ==> #[trigger] out@[q] == self.data@[dense_source(axes, q)],
            decreases total - p,
        {
            proof {
                assert(extents(ext));
                lemma_flatten_unflatten(ext, p as int);
                lemma_unflatten_len(ext, p as int);
            }
            proof {
                lemma_extents(axes);
                if ext.len() > 0 {
                    lemma_product_suffix(ext, 1);
                }
            }
            let c = multi_dim_index(sizes.as_slice(), p);
            let ghost cs = unflatten(ext, p as int);
            let ghost ts = Seq::new(n as nat, |d: int| cs[d] / (axes[d].tile_size as int));
            let ghost us = Seq::new(n as nat, |d: int| cs[d] % (axes[d].tile_size as int));
            proof {
                lemma_ints(c@);
            }
            // the tile that holds the point, and the point's place in it
            let mut t: Vec<usize> = Vec::new();
            let mut u: Vec<usize> = Vec::new();
            let mut d: usize = 0;
            while d < n
                invariant
                    d <= n == axes.len() == c@.len(),
                    axes_ok(axes),
                    ext == data_extents(axes),
                    ints(c@) == cs,
                    within(ext, cs),
                    tile_sizes@.len() == n,
                    forall|e: int| 0 <= e < n ==> #[trigger] tile_sizes@[e] == axes[e].tile_size,
                    ts == Seq::new(n as nat, |e: int| cs[e] / (axes[e].tile_size as int)),
                    us == Seq::new(n as nat, |e: int| cs[e] % (axes[e].tile_size as int)),
                    ints(t@) == ts.take(d as int),
                    ints(u@) == us.take(d as int),
                decreases n - d,
            {
                assert(axes[d as int].wf());
                let size = tile_sizes[d];
                let td = c[d] / size;
                let ud = c[d] % size;
                proof {
                    lemma_ints_push(t@, td);
                    lemma_ints_push(u@, ud);
                    assert(ts.take(d + 1) =~= ts.take(d as int).push(ts[d as int]));
                    assert(us.take(d + 1) =~= us.take(d as int).push(us[d as int]));
                }
                t.push(td);
                u.push(ud);
                d = d + 1;
            }
            proof {
                assert(ts.take(d as int) =~= ts);
                assert(us.take(d as int) =~= us);
                lemma_ints(t@);
                lemma_ints(u@);
                assert forall|e: int| 0 <= e < n implies 0 <= #[trigger] ts[e] < tile_counts(
                    axes,
                )[e] && 0 <= us[e] < tile_lengths(axes, ts)[e] by {
                    assert(axes[e].wf());
                    lemma_point_in_tile(
                        axes[e].data_points as int,
                        axes[e].tile_size as int,
                        cs[e],
                    );
                }
                assert(within(tile_counts(axes), ts));
                assert(within(tile_lengths(axes, ts), us));
                lemma_flatten_bounds(tile_counts(axes), ts);
                lemma_unflatten_flatten(tile_counts(axes), ts);
            }
            proof {
                lemma_position_fits(tile_counts(axes), ts);
            }
            let k = multi_dim_position(counts.as_slice(), t.as_slice());
            let tile = &all[k];
            proof {
                assert(tile.is_tile_of(*self, k as int));
                lemma_flatten_bounds(tile_lengths(axes, ts), us);
            }
            let tile_len = tile.data.len();
            proof {
                lemma_position_fits(tile_lengths(axes, ts), us);
            }
            let j = multi_dim_position(tile.axis_lengths.as_slice(), u.as_slice());
            let value = tile.data[j];
            proof {
                assert(dense_source(axes, p as int) == tile_offset(axes, k as int) + j);
                lemma_offset_monotone(axes, k + 1, total_tiles(axes));
                lemma_offset_monotone(axes, 0, k as int);
                lemma_tiles_cover(axes);
                lemma_extents(axes);
                assert(tile_offset(axes, k + 1) == tile_offset(axes, k as int) + tile_volume(
                    axes,
                    k as int,
                ));
                assert(j < tile_volume(axes, k as int));
                assert(value == self.data@[tile_offset(axes, k as int) + j]);
                assert(out@.push(value)[p as int] == value);
            }
            out.push(value);
            p = p + 1;
        }
        proof {
            assert forall|k: int, j: int|
                0 <= k < total_tiles(axes) && 0 <= j < tile_volume(axes, k) implies out@[flatten(
                ext,
                #[trigger] sample_coords(axes, k, j),
            )] == self.data@[tile_offset(axes, k) + j] by {
                lemma_dense_round_trip(axes, k, j);
                lemma_flatten_bounds(ext, sample_coords(axes, k, j));
            }
        }
        out
    }
}

/// A view of the valid samples of one tile.
pub struct Tile<'a> {
    /// Amount of data points along each axis in this tile.
    pub axis_lengths: Vec<usize>,
    /// Absolute index of the first data point of this tile along each axis.
    pub axis_starts: Vec<usize>,
    /// The tile's samples, row-major.
    pub data: &'a [u32],
}

impl<'a> Tile<'a> {
    /// The shape fits the samples, and every absolute coordinate fits in a
    /// `usize`.
    pub open spec fn wf(&self) -> bool {
        &&& self.axis_lengths@.len() == self.axis_starts@.len()
        &&& forall|d: int| 0 <= d < self.axis_lengths@.len() ==> #[trigger] self.axis_lengths@[d] >= 1
        &&& forall|d: int|
            0 <= d < self.axis_lengths@.len() ==> #[trigger] self.axis_starts@[d]
                + self.axis_lengths@[d] <= usize::MAX
        &&& product(ints(self.axis_lengths@)) == self.data@.len()
    }

    /// `self` is the `k`-th tile of `file`.
    pub open spec fn is_tile_of(&self, file: UcsfFile, k: int) -> bool {
        let axes = file.axis_headers@;
        let t = tile_index(axes, k);
        &&& ints(self.axis_lengths@) == tile_lengths(axes, t)
        &&& ints(self.axis_starts@) == tile_starts(axes, t)
        &&& self.data@ == file.data@.subrange(
            tile_offset(axes, k),
            tile_offset(axes, k) + tile_volume(axes, k),
        )
    }

    /// Absolute coordinates of the `j`-th sample of the tile.
    pub open spec fn position(&self, j: int) -> Seq<int> {
        let u = unflatten(ints(self.axis_lengths@), j);
        Seq::new(self.axis_lengths@.len(), |d: int| self.axis_starts@[d] + u[d])
    }

    /// The samples of the tile.
    pub fn data(&self) -> (r: &[u32])
        ensures
            r@ == self.data@,
    {
        self.data
    }

    /// Iterates over the values in the tile with their absolute position in
    /// the spectrum.
    pub fn iter_with_abolute_pos(&self) -> (r: AbsolutePosValIter<'_>)
        ensures
            r.tile == self,
            r.next_index == 0,
    {
        AbsolutePosValIter { tile: self, next_index: 0 }
    }
}

/// Walks the samples of a tile with their absolute coordinates.
pub struct AbsolutePosValIter<'a> {
    /// The tile walked.
    pub tile: &'a Tile<'a>,
    /// Index of the next sample within the tile.
    pub next_index: usize,
}

impl<'a> AbsolutePosValIter<'a> {
    /// Views the coordinates as pairs.
    pub fn as_2d(self) -> (r: AbsolutePosValIter2D<'a>)
        ensures
            r.iter == self,
    {
        AbsolutePosValIter2D { iter: self }
    }

    /// Views the coordinates as triples.
    pub fn as_3d(self) -> (r: AbsolutePosValIter3D<'a>)
        ensures
            r.iter == self,
    {
        AbsolutePosValIter3D { iter: self }
    }

    /// Views the coordinates as quadruples.
    pub fn as_4d(self) -> (r: AbsolutePosValIter4D<'a>)
        ensures
            r.iter == self,
    {
        AbsolutePosValIter4D { iter: self }
    }

    /// The next sample with its absolute coordinates, or `None` once every
    /// sample has been visited.
    pub fn next(&mut self) -> (r: Option<(Vec<usize>, u32)>)
        requires
            old(self).tile.wf(),
        ensures
            final(self).tile == old(self).tile,
            old(self).next_index < old(self).tile.data@.len() ==> {
                &&& r matches Some((c, v))
                &&& ints(c@) == old(self).tile.position(old(self).next_index as int)
                &&& v == old(self).tile.data@[old(self).next_index as int]
                &&& final(self).next_index == old(self).next_index + 1
            },
            old(self).next_index >= old(self).tile.data@.len() ==> {
                &&& r is None
                &&& final(self).next_index == old(self).next_index
            },
    {
        let tile = self.tile;
        let j = self.next_index;
        if j >= tile.data.len() {
            return None;
        }
        let ghost lens = ints(tile.axis_lengths@);
        assert forall|i: int| 0 <= i < lens.len() implies #[trigger] lens[i] >= 0 by {}
        proof {
            lemma_flatten_unflatten(lens, j as int);
        }
        // position relative to the tile
        proof {
            lemma_ints(tile.axis_lengths@);
            assert forall|i: int| 0 <= i < lens.len() implies #[trigger] lens[i] >= 1 by {}
            if lens.len() > 0 {
                lemma_product_suffix(lens, 1);
            }
        }
        let rel = multi_dim_index(tile.axis_lengths.as_slice(), j);
        let ghost u = unflatten(lens, j as int);
        let n = tile.axis_lengths.len();
        let mut abs: Vec<usize> = Vec::new();
        let mut d: usize = 0;
        while d < n
            invariant
                d <= n == tile.axis_lengths@.len() == tile.axis_starts@.len() == rel@.len(),
                tile.wf(),
                ints(rel@) == u,
                u == unflatten(lens, j as int),
                within(lens, u),
                lens == ints(tile.axis_lengths@),
                ints(abs@) == tile.position(j as int).take(d as int),
            decreases n - d,
        {
            proof {
                lemma_ints(rel@);
                lemma_ints(tile.axis_lengths@);
            }
            assert(u[d as int] < lens[d as int]);
            let a = rel[d] + tile.axis_starts[d];
            proof {
                lemma_ints_push(abs@, a);
                let pos = tile.position(j as int);
                assert(rel@[d as int] as int == u[d as int]);
                assert(pos[d as int] == tile.axis_starts@[d as int] + u[d as int]);
                assert(pos.take(d + 1) =~= pos.take(d as int).push(pos[d as int]));
            }
            abs.push(a);
            d = d + 1;
        }
        proof {
            assert(tile.position(j as int).take(d as int) =~= tile.position(j as int));
        }
        let val = tile.data[j];
        self.next_index = j + 1;
        Some((abs, val))
    }
}

/// Walks the samples of a two-dimensional tile.
pub struct AbsolutePosValIter2D<'a> {
    /// The walk over the tile.
    pub iter: AbsolutePosValIter<'a>,
}

impl<'a> AbsolutePosValIter2D<'a> {
    /// The next sample with its absolute coordinates.
    pub fn next(&mut self) -> (r: Option<((usize, usize), u32)>)
        requires
            old(self).iter.tile.wf(),
            old(self).iter.tile.axis_lengths@.len() == 2,
        ensures
            final(self).iter.tile == old(self).iter.tile,
            ({
                let (tile, i) = (old(self).iter.tile, old(self).iter.next_index as int);
                &&& i < tile.data@.len() ==> {
                    &&& r matches Some((c, v))
                    &&& c.0 == tile.position(i)[0] && c.1 == tile.position(i)[1]
                    &&& v == tile.data@[i]
                    &&& final(self).iter.next_index == i + 1
                }
                &&& i >= tile.data@.len() ==> r is None && final(self).iter.next_index == i
            }),
    {
        match self.iter.next() {
            Some((c, v)) => {
                proof {
                    lemma_ints(c@);
                }
                assert(c@[0] as int == ints(c@)[0] && c@[1] as int == ints(c@)[1]);
                Some(((c[0], c[1]), v))
            },
            None => None,
        }
    }
}

/// Walks the samples of a three-dimensional tile.
pub struct AbsolutePosValIter3D<'a> {
    /// The walk over the tile.
    pub iter: AbsolutePosValIter<'a>,
}

impl<'a> AbsolutePosValIter3D<'a> {
    /// The next sample with its absolute coordinates.
    pub fn next(&mut self) -> (r: Option<((usize, usize, usize), u32)>)
        requires
            old(self).iter.tile.wf(),
            old(self).iter.tile.axis_lengths@.len() == 3,
        ensures
            final(self).iter.tile == old(self).iter.tile,
            ({
                let (tile, i) = (old(self).iter.tile, old(self).iter.next_index as int);
                &&& i < tile.data@.len() ==> {
                    &&& r matches Some((c, v))
                    &&& c.0 == tile.position(i)[0] && c.1 == tile.position(i)[1] && c.2
                        == tile.position(i)[2]
                    &&& v == tile.data@[i]
                    &&& final(self).iter.next_index == i + 1
                }
                &&& i >= tile.data@.len() ==> r is None && final(self).iter.next_index == i
            }),
    {
        match self.iter.next() {
            Some((c, v)) => {
                proof {
                    lemma_ints(c@);
                }
                assert(c@[0] as int == ints(c@)[0] && c@[1] as int == ints(c@)[1] && c@[2] as int
                    == ints(c@)[2]);
                Some(((c[0], c[1], c[2]), v))
            },
            None => None,
        }
    }
}

/// Walks the samples of a four-dimensional tile.
pub struct AbsolutePosValIter4D<'a> {
    /// The walk over the tile.
    pub iter: AbsolutePosValIter<'a>,
}

impl<'a> AbsolutePosValIter4D<'a> {
    /// The next sample with its absolute coordinates.
    pub fn next(&mut self) -> (r: Option<((usize, usize, usize, usize), u32)>)
        requires
            old(self).iter.tile.wf(),
            old(self).iter.tile.axis_lengths@.len() == 4,
        ensures
            final(self).iter.tile == old(self).iter.tile,
            ({
                let (tile, i) = (old(self).iter.tile, old(self).iter.next_index as int);
                &&& i < tile.data@.len() ==> {
                    &&& r matches Some((c, v))
                    &&& c.0 == tile.position(i)[0] && c.1 == tile.position(i)[1] && c.2
                        == tile.position(i)[2] && c.3 == tile.position(i)[3]
                    &&& v == tile.data@[i]
                    &&& final(self).iter.next_index == i + 1
                }
                &&& i >= tile.data@.len() ==> r is None && final(self).iter.next_index == i
            }),
    {
        match self.iter.next() {
            Some((c, v)) => {
                proof {
                    lemma_ints(c@);
                }
                assert(c@[0] as int == ints(c@)[0] && c@[1] as int == ints(c@)[1] && c@[2] as int
                    == ints(c@)[2] && c@[3] as int == ints(c@)[3]);
                Some(((c[0], c[1], c[2], c[3]), v))
            },
            None => None,
        }
    }
}

/// Walks the tiles of a file in row-major tile order.
pub struct Tiles<'a> {
    /// Index of the next tile.
    pub next_index: usize,
    /// Position of the next tile's samples in the file's sample buffer.
    pub next_offset: usize,
    /// The file walked.
    pub file: &'a UcsfFile,
}

impl<'a> Tiles<'a> {
    /// The walk is over a well-formed file and positioned at a tile boundary.
    pub open spec fn wf(&self) -> bool {
        &&& self.file.wf()
        &&& self.next_index <= total_tiles(self.file.axis_headers@)
        &&& self.next_offset == tile_offset(self.file.axis_headers@, self.next_index as int)
    }

    /// Starts a walk over the tiles of `file`.
    pub fn for_file(file: &'a UcsfFile) -> (r: Self)
        requires
            file.wf(),
        ensures
            r.wf(),
            r.file == file,
            r.next_index == 0,
    {
        proof {
            lemma_extents(file.axis_headers@);
        }
        Self { next_index: 0, next_offset: 0, file }
    }

    /// The next tile, or `None` once every tile has been visited.
    pub fn next(&mut self) -> (r: Option<Tile<'a>>)
        requires
            old(self).wf(),
        ensures
            final(self).wf(),
            final(self).file == old(self).file,
            old(self).next_index < total_tiles(old(self).file.axis_headers@) ==> {
                &&& r matches Some(t)
                &&& t.is_tile_of(*old(self).file, old(self).next_index as int)
                &&& t.wf()
                &&& final(self).next_index == old(self).next_index + 1
            },
            old(self).next_index >= total_tiles(old(self).file.axis_headers@) ==> {
                &&& r is None
                &&& final(self).next_index == old(self).next_index
            },
    {
        let file = self.file;
        let ghost axes = file.axis_headers@;
        let k = self.next_index;
        proof {
            lemma_extents(axes);
        }
        let data_len = file.data.len();
        let tiles_per_axis = file.axis_tiles();
        proof {
            lemma_ints(tiles_per_axis@);
            assert forall|i: int| 0 <= i < tiles_per_axis@.len() implies #[trigger] tiles_per_axis@[i]
                >= 1 by {
                assert(ints(tiles_per_axis@)[i] == tile_counts(axes)[i]);
            }
        }
        let tiles_total = extent_product(tiles_per_axis.as_slice());
        if tiles_total <= k {
            return None;
        }
        proof {
            lemma_volume_positive(axes, k as int);
            lemma_unflatten_len(tile_counts(axes), k as int);
        }
        proof {
            if tile_counts(axes).len() > 0 {
                lemma_product_suffix(tile_counts(axes), 1);
            }
        }
        let tile_indices = multi_dim_index(tiles_per_axis.as_slice(), k);
        proof {
            lemma_ints(tile_indices@);
        }
        let ghost t = tile_index(axes, k as int);
        let n = file.axis_headers.len();
        let mut lens: Vec<usize> = Vec::new();
        let mut starts: Vec<usize> = Vec::new();
        let mut d: usize = 0;
        while d < n
            invariant
                d <= n == axes.len() == tile_indices@.len(),
                axes == file.axis_headers@,
                axes_ok(axes),
                ints(tile_indices@) == t,
                t == tile_index(axes, k as int),
                forall|i: int|
                    0 <= i < axes.len() ==> 1 <= #[trigger] tile_lengths(axes, t)[i]
                        <= axes[i].tile_size,
                forall|i: int|
                    0 <= i < axes.len() ==> #[trigger] tile_starts(axes, t)[i] + tile_lengths(
                        axes,
                        t,
                    )[i] <= axes[i].data_points,
                ints(lens@) == tile_lengths(axes, t).take(d as int),
                ints(starts@) == tile_starts(axes, t).take(d as int),
            decreases n - d,
        {
            let axis = &file.axis_headers[d];
            assert(axes[d as int].wf());
            let td = tile_indices[d];
            assert(td as int == t[d as int]);
            assert(tile_lengths(axes, t)[d as int] >= 1);
            assert(tile_starts(axes, t)[d as int] <= u32::MAX);
            let len = (axis.tile_size - axis.tile_padding(td)) as usize;
            let start = axis.tile_size as usize * td;
            proof {
                lemma_ints_push(lens@, len);
                lemma_ints_push(starts@, start);
                let (tl, ts) = (tile_lengths(axes, t), tile_starts(axes, t));
                assert(tl.take(d + 1) =~= tl.take(d as int).push(tl[d as int]));
                assert(ts.take(d + 1) =~= ts.take(d as int).push(ts[d as int]));
            }
            lens.push(len);
            starts.push(start);
            d = d + 1;
        }
        proof {
            assert(tile_lengths(axes, t).take(d as int) =~= tile_lengths(axes, t));
            assert(tile_starts(axes, t).take(d as int) =~= tile_starts(axes, t));
            lemma_offset_monotone(axes, k + 1, total_tiles(axes));
            lemma_offset_monotone(axes, 0, k as int);
            lemma_tiles_cover(axes);
            assert(tile_offset(axes, k + 1) == tile_offset(axes, k as int) + tile_volume(axes, k as int));
            lemma_ints(lens@);
            lemma_ints(starts@);
            assert forall|i: int| 0 <= i < lens@.len() implies #[trigger] lens@[i] >= 1 by {
                assert(ints(lens@)[i] == lens@[i]);
            }
            assert forall|i: int| 0 <= i < lens@.len() implies #[trigger] starts@[i] + lens@[i]
                <= usize::MAX by {
                assert(ints(lens@)[i] == lens@[i]);
                assert(ints(starts@)[i] == starts@[i]);
            }
        }
        let volume = extent_product(lens.as_slice());
        let start = self.next_offset;
        let end = start + volume;
        let data = slice_subrange(file.data.as_slice(), start, end);
        self.next_index = k + 1;
        self.next_offset = end;
        Some(Tile { axis_lengths: lens, axis_starts: starts, data })
    }
}

} // verus!
