//! The 128-byte per-axis record and the tile geometry along one axis.
use crate::header::{be_u32_at, read_be_u32, UcsfError};
use vstd::arithmetic::div_mod::{lemma_fundamental_div_mod, lemma_fundamental_div_mod_converse};
use vstd::prelude::*;
use vstd::slice::{slice_subrange, slice_to_vec};

verus! {

/// Length of one axis record in bytes.
pub const AXIS_LEN: usize = 128;

/// Length of the nucleus label field at the start of an axis record.
pub const LABEL_LEN: usize = 8;

/// What `String::from_utf8_lossy` makes of a byte sequence.
pub uninterp spec fn lossy_text(b: Seq<u8>) -> Seq<char>;

/// What `str::trim_end` leaves of a text.
pub uninterp spec fn trim_end_of(s: Seq<char>) -> Seq<char>;

/// Relies on `String::from_utf8_lossy`: the text that the bytes encode, with
/// each invalid sequence replaced by U+FFFD; it depends on the bytes alone.
#[verifier::external_body]
fn decode_lossy(b: &[u8]) -> (r: String)
    ensures
        r@ == lossy_text(b@),
{
    String::from_utf8_lossy(b).into_owned()
}

/// Relies on `str::trim_end`: the text without its trailing white space; it
/// depends on the text alone.
#[verifier::external_body]
fn trim_trailing(s: &str) -> (r: String)
    ensures
        r@ == trim_end_of(s@),
{
    s.trim_end().to_string()
}

/// The bytes before the first NUL, or all of them when there is none.
pub open spec fn before_nul(s: Seq<u8>) -> Seq<u8>
    decreases s.len(),
{
    if s.len() == 0 || s[0] == 0 {
        seq![]
    } else {
        seq![s[0]] + before_nul(s.skip(1))
    }
}

proof fn lemma_before_nul(s: Seq<u8>, i: int)
    requires
        0 <= i <= s.len(),
        forall|j: int| 0 <= j < i ==> s[j] != 0,
        i == s.len() || s[i] == 0,
    ensures
        before_nul(s) == s.subrange(0, i),
    decreases i,
{
    if i == 0 {
        assert(s.subrange(0, 0) =~= seq![]);
    } else {
        let t = s.skip(1);
        assert forall|j: int| 0 <= j < i - 1 implies #[trigger] t[j] != 0 by {
            assert(t[j] == s[j + 1]);
        }
        lemma_before_nul(t, i - 1);
        assert(seq![s[0]] + t.subrange(0, i - 1) =~= s.subrange(0, i));
    }
}

/// Number of tiles along an axis: `ceil(data_points / tile_size)`.
pub open spec fn tile_count_of(data_points: int, tile_size: int) -> int {
    (data_points + tile_size - 1) / tile_size
}

/// Extent of an axis as stored, padding included.
pub open spec fn padded_extent_of(data_points: int, tile_size: int) -> int {
    tile_count_of(data_points, tile_size) * tile_size
}

/// Whether tile `t` is at or past the last full tile of the axis.
pub open spec fn is_boundary_of(data_points: int, tile_size: int, t: int) -> bool {
    t >= data_points / tile_size
}

/// Padding samples of tile `t`: the whole overhang of the axis for the
/// boundary tile, none otherwise.
pub open spec fn padding_of(data_points: int, tile_size: int, t: int) -> int {
    if is_boundary_of(data_points, tile_size, t) {
        padded_extent_of(data_points, tile_size) - data_points
    } else {
        0
    }
}

/// Valid (unpadded) samples of tile `t` along the axis.
pub open spec fn valid_length_of(data_points: int, tile_size: int, t: int) -> int {
    tile_size - padding_of(data_points, tile_size, t)
}

/// Axis extents that a decodable file may declare: tiles and points are not
/// empty and the padded extent fits the 32-bit fields.
pub open spec fn axis_ok(data_points: int, tile_size: int) -> bool {
    &&& tile_size > 0
    &&& data_points > 0
    &&& padded_extent_of(data_points, tile_size) <= u32::MAX
}

/// Sum of the valid lengths of the first `k` tiles of an axis.
pub open spec fn valid_prefix_of(data_points: int, tile_size: int, k: int) -> int
    decreases k,
{
    if k <= 0 {
        0
    } else {
        valid_prefix_of(data_points, tile_size, k - 1) + valid_length_of(data_points, tile_size, k - 1)
    }
}

/// The tile count covers every point, and with one tile fewer some point
/// would be left out.
pub proof fn lemma_tile_count_bounds(data_points: int, tile_size: int)
    requires
        data_points >= 0,
        tile_size > 0,
    ensures
        tile_count_of(data_points, tile_size) * tile_size >= data_points,
        (tile_count_of(data_points, tile_size) - 1) * tile_size < data_points,
        tile_count_of(data_points, tile_size) >= 0,
{
    let x = data_points + tile_size - 1;
    lemma_fundamental_div_mod(x, tile_size);
    let q = x / tile_size;
    let r = x % tile_size;
    assert(q * tile_size == tile_size * q) by (nonlinear_arith);
    assert((q - 1) * tile_size == q * tile_size - tile_size) by (nonlinear_arith);
    assert(q >= 0) by (nonlinear_arith)
        requires
            x >= 0,
            tile_size > 0,
            x == tile_size * q + r,
            0 <= r < tile_size,
    ;
}

/// Along a valid axis, tiles before the count are one to `tile_size` samples
/// long, all but the last one full.
pub proof fn lemma_valid_length(data_points: int, tile_size: int, t: int)
    requires
        axis_ok(data_points, tile_size),
        0 <= t < tile_count_of(data_points, tile_size),
    ensures
        1 <= valid_length_of(data_points, tile_size, t) <= tile_size,
        t + 1 < tile_count_of(data_points, tile_size) ==> valid_length_of(data_points, tile_size, t)
            == tile_size,
        is_boundary_of(data_points, tile_size, t) ==> valid_length_of(data_points, tile_size, t)
            == data_points - t * tile_size,
        t * tile_size + valid_length_of(data_points, tile_size, t) <= data_points,
{
    lemma_tile_count_bounds(data_points, tile_size);
    let c = tile_count_of(data_points, tile_size);
    lemma_fundamental_div_mod(data_points, tile_size);
    let q = data_points / tile_size;
    let r = data_points % tile_size;
    assert(q * tile_size == tile_size * q) by (nonlinear_arith);
    assert((c - 1) * tile_size == c * tile_size - tile_size) by (nonlinear_arith);
    // the count is q or q + 1
    assert(q <= c <= q + 1) by (nonlinear_arith)
        requires
            tile_size > 0,
            c * tile_size >= data_points,
            c * tile_size - tile_size < data_points,
            data_points == tile_size * q + r,
            0 <= r < tile_size,
    ;
    if t < q {
        assert(t * tile_size + tile_size <= q * tile_size) by (nonlinear_arith)
            requires
                t < q,
                tile_size > 0,
        ;
        assert((t + 1) * tile_size == t * tile_size + tile_size) by (nonlinear_arith);
    } else {
        assert(t == c - 1);
        assert(t * tile_size == c * tile_size - tile_size) by (nonlinear_arith)
            requires
                t == c - 1,
        ;
    }
}

/// The valid lengths of all tiles of an axis add up to its point count.
pub proof fn lemma_valid_lengths_sum(data_points: int, tile_size: int)
    requires
        axis_ok(data_points, tile_size),
    ensures
        valid_prefix_of(data_points, tile_size, tile_count_of(data_points, tile_size))
            == data_points,
{
    lemma_valid_prefix(data_points, tile_size, tile_count_of(data_points, tile_size));
    lemma_tile_count_bounds(data_points, tile_size);
    let c = tile_count_of(data_points, tile_size);
    assert(c > 0) by (nonlinear_arith)
        requires
            c * tile_size >= data_points,
            data_points > 0,
            tile_size > 0,
    ;
    lemma_valid_length(data_points, tile_size, c - 1);
    if !is_boundary_of(data_points, tile_size, c - 1) {
        // the last tile is full: the points fill the tiles exactly
        lemma_fundamental_div_mod(data_points, tile_size);
        let q = data_points / tile_size;
        assert(c - 1 < q);
        assert(c * tile_size <= q * tile_size) by (nonlinear_arith)
            requires
                c <= q,
                tile_size > 0,
        ;
        assert(q * tile_size == tile_size * q) by (nonlinear_arith);
        assert((c - 1) * tile_size + tile_size == c * tile_size) by (nonlinear_arith);
        assert(c * tile_size == data_points);
    }
}

/// The first `k` tiles of a valid axis hold `k * tile_size` samples, but for
/// the last tile, which holds the rest.
proof fn lemma_valid_prefix(data_points: int, tile_size: int, k: int)
    requires
        axis_ok(data_points, tile_size),
        0 <= k <= tile_count_of(data_points, tile_size),
    ensures
        k < tile_count_of(data_points, tile_size) ==> valid_prefix_of(data_points, tile_size, k)
            == k * tile_size,
        k == tile_count_of(data_points, tile_size) && k > 0 ==> valid_prefix_of(
            data_points,
            tile_size,
            k,
        ) == (k - 1) * tile_size + valid_length_of(data_points, tile_size, k - 1),
    decreases k,
{
    if k > 0 {
        lemma_valid_prefix(data_points, tile_size, k - 1);
        lemma_valid_length(data_points, tile_size, k - 1);
        assert(valid_prefix_of(data_points, tile_size, k) == valid_prefix_of(
            data_points,
            tile_size,
            k - 1,
        ) + valid_length_of(data_points, tile_size, k - 1));
        assert(k * tile_size == (k - 1) * tile_size + tile_size) by (nonlinear_arith);
        if k - 1 > 0 {
            assert(k - 1 < tile_count_of(data_points, tile_size));
        } else {
            assert(valid_prefix_of(data_points, tile_size, 0) == 0);
            assert(0 * tile_size == 0);
        }
    }
}

/// One 128-byte axis record.
#[derive(Debug, Clone, PartialEq)]
pub struct AxisHeader {
    /// Nucleus name (1H, 13C, 15N, 31P, ...), bytes 0-7.
    pub nucleus_name: String,
    /// Number of data points along this axis, bytes 8-11 (followed by 4
    /// unused bytes).
    pub data_points: u32,
    /// Tile size along this axis, bytes 16-19.
    pub tile_size: u32,
    /// IEEE-754 single-precision bits of the spectrometer frequency for this
    /// nucleus in MHz, bytes 20-23.
    pub frequency: u32,
    /// IEEE-754 single-precision bits of the spectral width in Hz, bytes 24-27.
    pub spectral_width: u32,
    /// IEEE-754 single-precision bits of the center of the data in ppm,
    /// bytes 28-31.
    pub center: u32,
    /// Remaining unspecified bytes, bytes 32-127.
    pub remainder: Vec<u8>,
}

impl AxisHeader {
    /// `self` is the axis record that the first 128 bytes of `b` hold.
    pub open spec fn decodes(&self, b: Seq<u8>) -> bool {
        &&& b.len() >= AXIS_LEN
        &&& self.nucleus_name@ == trim_end_of(lossy_text(before_nul(b.subrange(0, LABEL_LEN as int))))
        &&& self.data_points == be_u32_at(b, 8)
        &&& self.tile_size == be_u32_at(b, 16)
        &&& self.frequency == be_u32_at(b, 20)
        &&& self.spectral_width == be_u32_at(b, 24)
        &&& self.center == be_u32_at(b, 28)
        &&& self.remainder@ == b.subrange(32, AXIS_LEN as int)
    }

    /// The axis has tiles, points, and a padded extent that fits in 32 bits.
    pub open spec fn wf(&self) -> bool {
        axis_ok(self.data_points as int, self.tile_size as int)
    }

    /// Decodes the axis record at the start of `input` and returns it with the
    /// bytes that follow it.
    pub fn parse(input: &[u8]) -> (r: Result<(&[u8], AxisHeader), UcsfError>)
        ensures
            r is Err <==> input@.len() < AXIS_LEN,
            r matches Err(e) ==> e == UcsfError::Parsing,
            r matches Ok((rest, a)) ==> {
                &&& a.decodes(input@)
                &&& rest@ == input@.subrange(AXIS_LEN as int, input@.len() as int)
            },
    {
        if input.len() < AXIS_LEN {
            return Err(UcsfError::Parsing);
        }
        let mut end: usize = 0;
        while end < LABEL_LEN && input[end] != 0
            invariant
                end <= LABEL_LEN <= input@.len(),
                forall|j: int| 0 <= j < end ==> input@[j] != 0,
            decreases LABEL_LEN - end,
        {
            end = end + 1;
        }
        proof {
            let label = input@.subrange(0, LABEL_LEN as int);
            lemma_before_nul(label, end as int);
            assert(label.subrange(0, end as int) =~= input@.subrange(0, end as int));
        }
        let text = decode_lossy(slice_subrange(input, 0, end));
        let nucleus_name = trim_trailing(text.as_str());
        let data_points = read_be_u32(input, 8);
        let tile_size = read_be_u32(input, 16);
        let frequency = read_be_u32(input, 20);
        let spectral_width = read_be_u32(input, 24);
        let center = read_be_u32(input, 28);
        let remainder = slice_to_vec(slice_subrange(input, 32, AXIS_LEN));
        let (_, rest) = input.split_at(AXIS_LEN);
        Ok((
            rest,
            AxisHeader {
                nucleus_name,
                data_points,
                tile_size,
                frequency,
                spectral_width,
                center,
                remainder,
            },
        ))
    }

    /// Whether the axis has tiles, points, and a padded extent that fits in
    /// 32 bits.
    pub fn is_well_formed(&self) -> (r: bool)
        ensures
            r == self.wf(),
    {
        if self.tile_size == 0 || self.data_points == 0 {
            return false;
        }
        let count = self.num_tiles() as u64;
        let size = self.tile_size as u64;
        assert(count * size <= 0xffff_ffffu64 * 0xffff_ffffu64) by (nonlinear_arith)
            requires
                count <= 0xffff_ffffu64,
                size <= 0xffff_ffffu64,
        ;
        count * size <= u32::MAX as u64
    }

    /// Returns the amount of tiles along this axis.
    pub fn num_tiles(&self) -> (r: u32)
        requires
            self.tile_size > 0,
        ensures
            r == tile_count_of(self.data_points as int, self.tile_size as int),
    {
        let dp = self.data_points as u64;
        let ts = self.tile_size as u64;
        proof {
            let x = dp + ts - 1;
            if ts >= 2 {
                vstd::arithmetic::div_mod::lemma_div_is_ordered_by_denominator(x as int, 2, ts as int);
            }
        }
        // adding `tile_size - 1` rounds up for a partially filled last tile
        ((dp + ts - 1) / ts) as u32
    }

    /// Returns the size of the axis including zero-padding.
    pub fn padded_size(&self) -> (r: u32)
        requires
            self.wf(),
        ensures
            r == padded_extent_of(self.data_points as int, self.tile_size as int),
    {
        self.num_tiles() * self.tile_size
    }

    /// Checks whether the tile with index `tile_n` has padding along this axis.
    pub fn tile_is_padded(&self, tile_n: usize) -> (r: bool)
        requires
            self.tile_size > 0,
        ensures
            r == is_boundary_of(self.data_points as int, self.tile_size as int, tile_n as int),
    {
        let num_full_tiles = self.data_points / self.tile_size;
        tile_n >= num_full_tiles as usize
    }

    /// Returns the amount of padding for the tile with index `tile_n` along
    /// this axis.
    pub fn tile_padding(&self, tile_n: usize) -> (r: u32)
        requires
            self.wf(),
        ensures
            r == padding_of(self.data_points as int, self.tile_size as int, tile_n as int),
    {
        if self.tile_is_padded(tile_n) {
            proof {
                lemma_tile_count_bounds(self.data_points as int, self.tile_size as int);
            }
            self.padded_size() - self.data_points
        } else {
            0
        }
    }
}

} // verus!
