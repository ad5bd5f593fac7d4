//! Render-target bookkeeping: when to rebuild the HDR target, the bloom mip
//! chain's sizes, GPU buffer growth, which instance slices are drawable, and
//! stripping the row padding of a texture readback.

use vstd::prelude::*;
use core::ops::Range;

verus! {

// ---------------------------------------------------------------- post chain

/// The bloom chain starts at half resolution and stops at this mip floor.
pub const BLOOM_MIN_DIM: u32 = 8;
/// At most this many bloom levels.
pub const BLOOM_MAX_LEVELS: usize = 6;

/// The HDR target and bloom chain must be rebuilt for a new viewport size;
/// a zero-sized (minimized) viewport keeps the old targets.
pub fn needs_resize(current: (u32, u32), width: u32, height: u32) -> (r: bool)
    ensures
        r == !(current == (width, height) || width == 0 || height == 0),
{
    !((current.0 == width && current.1 == height) || width == 0 || height == 0)
}

pub open spec fn half_at_least_one(n: u32) -> u32 {
    if n / 2 >= 1 { (n / 2) as u32 } else { 1 }
}

/// Levels of the bloom chain from a level of size `(w, h)` that is number
/// `k` in the chain: halve until the next level would drop below the floor
/// or the chain is full.
pub open spec fn bloom_levels_from(w: u32, h: u32, k: nat) -> Seq<(u32, u32)>
    decreases BLOOM_MAX_LEVELS - k,
{
    if k + 1 >= BLOOM_MAX_LEVELS || w / 2 < BLOOM_MIN_DIM || h / 2 < BLOOM_MIN_DIM {
        seq![(w, h)]
    } else {
        seq![(w, h)] + bloom_levels_from((w / 2) as u32, (h / 2) as u32, k + 1)
    }
}

/// Sizes of the bloom mip chain for a `width × height` HDR target.
pub open spec fn bloom_chain_spec(width: u32, height: u32) -> Seq<(u32, u32)> {
    bloom_levels_from(half_at_least_one(width), half_at_least_one(height), 0)
}

proof fn lemma_bloom_levels_len(w: u32, h: u32, k: nat)
    requires
        k < BLOOM_MAX_LEVELS,
    ensures
        1 <= bloom_levels_from(w, h, k).len() <= BLOOM_MAX_LEVELS - k,
        bloom_levels_from(w, h, k)[0] == (w, h),
    decreases BLOOM_MAX_LEVELS - k,
{
    if !(k + 1 >= BLOOM_MAX_LEVELS || w / 2 < BLOOM_MIN_DIM || h / 2 < BLOOM_MIN_DIM) {
        lemma_bloom_levels_len((w / 2) as u32, (h / 2) as u32, k + 1);
    }
}

/// Bloom chain: half resolution, halving until the floor. Always at least one
/// level (the composite pass samples level 0 unconditionally) and at most
/// [`BLOOM_MAX_LEVELS`].
pub fn bloom_chain(width: u32, height: u32) -> (levels: Vec<(u32, u32)>)
    ensures
        levels@ == bloom_chain_spec(width, height),
        1 <= levels@.len() <= BLOOM_MAX_LEVELS,
        levels@[0] == (half_at_least_one(width), half_at_least_one(height)),
{
    let mut levels: Vec<(u32, u32)> = Vec::new();
    let mut w = if width / 2 >= 1 { width / 2 } else { 1 };
    let mut h = if height / 2 >= 1 { height / 2 } else { 1 };
    proof {
        lemma_bloom_levels_len(w, h, 0);
    }
    loop
        invariant_except_break
            levels@.len() < BLOOM_MAX_LEVELS,
            levels@ + bloom_levels_from(w, h, levels@.len()) == bloom_chain_spec(width, height),
        ensures
            levels@ == bloom_chain_spec(width, height),
        decreases BLOOM_MAX_LEVELS - levels@.len(),
    {
        let ghost k = levels@.len();
        let ghost rest = bloom_levels_from(w, h, k);
        levels.push((w, h));
        if w / 2 < BLOOM_MIN_DIM || h / 2 < BLOOM_MIN_DIM || levels.len() >= BLOOM_MAX_LEVELS {
            assert(rest == seq![(w, h)]);
            assert(levels@ == bloom_chain_spec(width, height));
            break;
        }
        assert(rest == seq![(w, h)] + bloom_levels_from((w / 2) as u32, (h / 2) as u32, k + 1));
        assert(levels@ + bloom_levels_from((w / 2) as u32, (h / 2) as u32, k + 1) == bloom_chain_spec(width, height));
        w = w / 2;
        h = h / 2;
    }
    proof {
        lemma_bloom_levels_len(half_at_least_one(width), half_at_least_one(height), 0);
    }
    levels
}

/// Bloom levels the upsample pass writes, in pass order: every level but the
/// smallest, from the second-smallest up to level 0.
pub fn upsample_order(level_count: usize) -> (order: Vec<usize>)
    ensures
        order@.len() == if level_count == 0 { 0 } else { level_count - 1 },
        forall|i: int| 0 <= i < order@.len() ==> #[trigger] order@[i] == order@.len() - 1 - i,
{
    let n = if level_count == 0 { 0 } else { level_count - 1 };
    let mut order: Vec<usize> = Vec::new();
    let mut i: usize = n;
    while i > 0
        invariant
            i <= n,
            order@.len() == n - i,
            forall|j: int| 0 <= j < order@.len() ==> #[trigger] order@[j] == n - 1 - j,
        decreases i,
    {
        i -= 1;
        order.push(i);
    }
    order
}

// ---------------------------------------------------------------- buffers

/// `n` is a power of two.
pub open spec fn is_power_of_two(n: nat) -> bool
    decreases n,
{
    if n == 1 {
        true
    } else if n == 0 || n % 2 == 1 {
        false
    } else {
        is_power_of_two(n / 2)
    }
}

/// The smallest power of two that is at least `n` (1 for 0), as std's
/// `usize::next_power_of_two`; `n` must leave room for the result.
pub fn next_power_of_two(n: usize) -> (p: usize)
    requires
        n <= usize::MAX / 2 + 1,
    ensures
        is_power_of_two(p as nat),
        p >= n,
        p == 1 || p / 2 < n,
{
    let mut p: usize = 1;
    while p < n
        invariant
            n <= usize::MAX / 2 + 1,
            is_power_of_two(p as nat),
            p >= 1,
            p == 1 || p / 2 < n,
        decreases usize::MAX - p,
    {
        assert(is_power_of_two((2 * p) as nat)) by {
            assert((2 * p) as nat / 2 == p as nat);
        }
        p = 2 * p;
    }
    p
}

/// Capacity of a GPU buffer after uploading `needed` elements: unchanged
/// while it fits, otherwise the next power of two.
pub fn grown_capacity(capacity: usize, needed: usize) -> (c: usize)
    requires
        needed <= usize::MAX / 2 + 1,
    ensures
        needed <= capacity ==> c == capacity,
        needed > capacity ==> is_power_of_two(c as nat) && c >= needed && c / 2 < needed,
{
    if needed > capacity {
        next_power_of_two(needed)
    } else {
        capacity
    }
}

/// A buffer slice is drawn only when it is non-empty and lies within the
/// `count` elements uploaded.
pub open spec fn drawable(r: Range<u32>, count: u32) -> bool {
    r.start < r.end && r.end <= count
}

/// The drawable slices, in order (the frustum-culling path draws only these).
pub fn drawable_ranges(ranges: &[Range<u32>], count: u32) -> (out: Vec<Range<u32>>)
    ensures
        out@ == ranges@.filter(|r: Range<u32>| drawable(r, count)),
{
    let mut out: Vec<Range<u32>> = Vec::new();
    let n = ranges.len();
    let mut i: usize = 0;
    while i < n
        invariant
            n == ranges@.len(),
            i <= n,
            out@ == ranges@.subrange(0, i as int).filter(|r: Range<u32>| drawable(r, count)),
        decreases n - i,
    {
        let (start, end) = (ranges[i].start, ranges[i].end);
        proof {
            assert(ranges@.subrange(0, i + 1).drop_last() == ranges@.subrange(0, i as int));
            reveal_with_fuel(Seq::filter, 1);
        }
        if start < end && end <= count {
            let r = start..end;
            assert(r == ranges@[i as int]);
            out.push(r);
        }
        i += 1;
    }
    assert(ranges@.subrange(0, n as int) == ranges@);
    out
}

// ---------------------------------------------------------------- readback

/// Bytes per row of a texture-to-buffer copy: the unpadded row rounded up to
/// the copy alignment.
pub fn padded_row_bytes(bytes_per_row: u32, align: u32) -> (padded: u32)
    requires
        align > 0,
        bytes_per_row + align <= u32::MAX,
    ensures
        padded % align == 0,
        bytes_per_row <= padded < bytes_per_row + align,
{
    let blocks = bytes_per_row / align + if bytes_per_row % align == 0 { 0 } else { 1 };
    assert(blocks * align <= bytes_per_row + align) by (nonlinear_arith)
        requires align > 0, blocks == bytes_per_row / align + if bytes_per_row % align == 0 { 0int } else { 1int };
    let padded = blocks * align;
    assert(padded % align == 0 && bytes_per_row <= padded < bytes_per_row + align) by (nonlinear_arith)
        requires align > 0, padded == blocks * align, blocks == bytes_per_row / align + if bytes_per_row % align == 0 { 0int } else { 1int };
    padded
}

/// Number of rows (chunks of `padded` bytes, the last possibly short) in a
/// readback of `len` bytes.
pub open spec fn row_count(len: int, padded: int) -> int {
    len / padded + if len % padded == 0 { 0int } else { 1int }
}

/// Drop the alignment padding of a readback: the first `bytes_per_row`
/// bytes of every `padded`-byte row, concatenated.
pub fn strip_row_padding(data: &[u8], bytes_per_row: usize, padded: usize) -> (pixels: Vec<u8>)
    requires
        0 < padded,
        bytes_per_row <= padded,
        data@.len() as int % padded as int == 0 || data@.len() as int % padded as int >= bytes_per_row,
    ensures
        pixels@.len() == row_count(data@.len() as int, padded as int) * bytes_per_row,
        forall|r: int, c: int| 0 <= r < row_count(data@.len() as int, padded as int) && 0 <= c < bytes_per_row ==>
            #[trigger] pixels@[r * bytes_per_row + c] == data@[r * padded + c],
{
    let len = data.len();
    let q = len / padded;
    let rem = len % padded;
    assert(rem != 0 ==> q < len) by (nonlinear_arith)
        requires q == len / padded, rem == len % padded, 0 < padded;
    let nrows = if rem == 0 { q } else { q + 1 };
    let mut pixels: Vec<u8> = Vec::new();
    let mut r: usize = 0;
    while r < nrows
        invariant
            len == data@.len(),
            0 < padded,
            bytes_per_row <= padded,
            len as int % padded as int == 0 || len as int % padded as int >= bytes_per_row,
            nrows == row_count(len as int, padded as int),
            r <= nrows,
            pixels@.len() == r * bytes_per_row,
            forall|rr: int, c: int| 0 <= rr < r && 0 <= c < bytes_per_row ==>
                #[trigger] pixels@[rr * bytes_per_row + c] == data@[rr * padded + c],
        decreases nrows - r,
    {
        assert(r * padded + bytes_per_row <= len) by (nonlinear_arith)
            requires r < nrows, nrows == len / padded + if len % padded == 0 { 0int } else { 1int }, 0 < padded,
                bytes_per_row <= padded, len as int % padded as int == 0 || len as int % padded as int >= bytes_per_row;
        let start = r * padded;
        let ghost before = pixels@;
        let mut c: usize = 0;
        while c < bytes_per_row
            invariant
                len == data@.len(),
                start + bytes_per_row <= len,
                c <= bytes_per_row,
                pixels@.len() == before.len() + c,
                forall|k: int| 0 <= k < before.len() ==> pixels@[k] == before[k],
                forall|k: int| 0 <= k < c ==> #[trigger] pixels@[before.len() + k] == data@[start + k],
            decreases bytes_per_row - c,
        {
            pixels.push(data[start + c]);
            c += 1;
        }
        proof {
            assert forall|rr: int, cc: int| 0 <= rr < r + 1 && 0 <= cc < bytes_per_row implies
                #[trigger] pixels@[rr * bytes_per_row + cc] == data@[rr * padded + cc] by {
                if rr < r {
                    assert(rr * bytes_per_row + cc < r * bytes_per_row) by (nonlinear_arith)
                        requires rr < r, 0 <= cc < bytes_per_row;
                    assert(pixels@[rr * bytes_per_row + cc] == before[rr * bytes_per_row + cc]);
                } else {
                    assert(rr * bytes_per_row + cc == before.len() + cc);
                    assert(rr * padded + cc == start + cc);
                }
            }
            assert((r + 1) * bytes_per_row == r * bytes_per_row + bytes_per_row) by (nonlinear_arith);
        }
        r += 1;
    }
    pixels
}

} // verus!
