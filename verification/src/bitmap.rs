//! Two-level hierarchical scan bitmap.
//!
//! The bitmap manages an array of single-bit flags, numbered from zero.
//! Physically it lives in one caller-supplied block of 64-bit words
//! ("slabs"): a coarse summary array ("array1") followed by the fine bit
//! array ("array2"). Array2 is partitioned into blocks of eight slabs
//! (512 bits, one 64-byte cache line); array1 keeps one bit per block,
//! set exactly when some bit of that block is set. A stateful `scan`
//! walks array1 to skip empty blocks wholesale and returns one nonzero
//! slab at a time, wrapping around at the end of the bit space.
//!
//! The structure takes no locks. The `&mut self` receivers of the
//! mutating operations make the single-writer discipline a fact of the
//! type system; `get` and `prefetch0` take `&self` and may be shared.

use vstd::prelude::*;
use vstd::arithmetic::div_mod::lemma_div_is_ordered;

verus! {

/// A 0-based bit index.
pub type Position = u32;

/// A 64-bit word, the unit of coarse read/write for both arrays.
pub type Slab = u64;

/// Bits per slab.
pub const SLAB_BITS: u32 = 64;

/// Bits per block: one 64-byte cache line of array2.
pub const BLOCK_BITS: u32 = 512;

/// Slabs per block.
pub const BLOCK_SLABS: u32 = 8;

/// How `init` and the position-taking operations fail.
#[derive(Clone, Copy, Debug, PartialEq, Eq, Structural)]
pub enum BitmapError {
    /// `init` was given zero bits or an undersized memory block.
    InvalidArgument,
    /// A position at or beyond the configured bit count.
    OutOfRange,
}

/// Number of array2 blocks backing `bits` positions. Zero bits are given
/// the reserved minimum of one block, so `memory_footprint` is total.
pub open spec fn spec_blocks(bits: u32) -> int {
    if bits == 0 {
        1
    } else {
        (bits + 511) / 512
    }
}

/// Number of array2 slabs that carry at least one in-range position:
/// every slab at or past this index is padding of the last block.
pub open spec fn spec_used_slabs(bits: u32) -> int {
    (bits + 63) / 64
}

/// Number of array1 slabs: one summary bit per block.
pub open spec fn spec_array1_slabs(bits: u32) -> int {
    (spec_blocks(bits) + 63) / 64
}

/// Slab offset of array2 inside the block: array1 rounded up to whole
/// cache lines.
pub open spec fn spec_array2_off(bits: u32) -> int {
    8 * ((spec_array1_slabs(bits) + 7) / 8)
}

/// Total slabs of the layout: array1 with its padding, then array2.
pub open spec fn spec_total_slabs(bits: u32) -> int {
    spec_array2_off(bits) + 8 * spec_blocks(bits)
}

/// Bytes required to back a bitmap of `bits` positions.
pub open spec fn spec_footprint(bits: u32) -> int {
    8 * spec_total_slabs(bits)
}

/// The layout quantities are small: every count fits comfortably in
/// `u32` arithmetic, and the bit space of the last block stays within
/// `Position` range.
pub proof fn lemma_layout_bounds(bits: u32)
    ensures
        1 <= spec_blocks(bits) <= 0x80_0000,
        1 <= spec_array1_slabs(bits) <= 0x2_0000,
        spec_array1_slabs(bits) <= spec_array2_off(bits) <= 0x2_0000,
        spec_total_slabs(bits) <= 0x402_0000,
        spec_footprint(bits) <= 0x2010_0000,
        bits as int <= 512 * spec_blocks(bits),
        spec_blocks(bits) <= 64 * spec_array1_slabs(bits),
        0 <= spec_used_slabs(bits) <= 8 * spec_blocks(bits),
        bits as int <= 64 * spec_used_slabs(bits),
        bits > 0 ==> 64 * (spec_used_slabs(bits) - 1) < bits,
{
    if bits != 0 {
        assert(bits + 511 <= 0x1_0000_01feint);
        assert((bits + 511) / 512 <= 0x1_0000_01feint / 512) by {
            lemma_div_is_ordered(bits + 511, 0x1_0000_01feint, 512);
        }
        assert(0x1_0000_01feint / 512 == 0x80_0000);
        assert(512 * ((bits + 511) / 512) > bits + 511 - 512) by {
            assert(512 * ((bits + 511) / 512) == (bits + 511) - ((bits + 511) % 512)) by {
                vstd::arithmetic::div_mod::lemma_fundamental_div_mod(bits + 511, 512);
            }
            assert((bits + 511) % 512 < 512) by {
                vstd::arithmetic::div_mod::lemma_mod_bound(bits + 511, 512);
            }
        }
    }
    let b = spec_blocks(bits);
    assert(1 <= b <= 0x80_0000);
    assert((b + 63) / 64 >= 1 && (b + 63) / 64 <= 0x2_0000) by {
        lemma_div_is_ordered(64, b + 63, 64);
        lemma_div_is_ordered(b + 63, 0x80_003fint, 64);
        assert(0x80_003fint / 64 == 0x2_0000);
    }
    let a1 = spec_array1_slabs(bits);
    assert(8 * ((a1 + 7) / 8) >= a1) by {
        assert(8 * ((a1 + 7) / 8) == (a1 + 7) - ((a1 + 7) % 8)) by {
            vstd::arithmetic::div_mod::lemma_fundamental_div_mod(a1 + 7, 8);
        }
        assert((a1 + 7) % 8 < 8) by {
            vstd::arithmetic::div_mod::lemma_mod_bound(a1 + 7, 8);
        }
    }
    assert((a1 + 7) / 8 <= 0x2_0007int / 8) by {
        lemma_div_is_ordered(a1 + 7, 0x2_0007int, 8);
    }
    assert(0x2_0007int / 8 == 0x4000);
    assert(bits <= 64 * ((bits + 63) / 64) && 64 * ((bits + 63) / 64) <= bits + 63) by {
        vstd::arithmetic::div_mod::lemma_fundamental_div_mod(bits + 63, 64);
        vstd::arithmetic::div_mod::lemma_mod_bound(bits + 63, 64);
    }
    assert(0 <= spec_used_slabs(bits)) by {
        vstd::arithmetic::div_mod::lemma_div_pos_is_pos(bits + 63, 64);
    }
    assert(spec_used_slabs(bits) <= 8 * b) by {
        lemma_div_is_ordered(bits + 63, 512 * b + 63, 64);
        vstd::arithmetic::div_mod::lemma_fundamental_div_mod_converse(512 * b + 63, 64, 8 * b, 63);
    }
}

/// Footprint monotonicity: more bits never need less memory.
pub proof fn lemma_footprint_monotone(bits1: u32, bits2: u32)
    requires
        bits1 <= bits2,
    ensures
        spec_footprint(bits1) <= spec_footprint(bits2),
{
    if bits1 != 0 {
        lemma_div_is_ordered(bits1 + 511, bits2 + 511, 512);
    } else if bits2 != 0 {
        lemma_div_is_ordered(512, bits2 + 511, 512);
    }
    lemma_div_is_ordered(spec_blocks(bits1) + 63, spec_blocks(bits2) + 63, 64);
    lemma_div_is_ordered(
        spec_array1_slabs(bits1) + 7,
        spec_array1_slabs(bits2) + 7,
        8,
    );
}

/// The block count and the array2 slab offset for `bits` positions.
fn layout(bits: u32) -> (r: (u32, u32))
    ensures
        r.0 as int == spec_blocks(bits),
        r.1 as int == spec_array2_off(bits),
{
    proof {
        lemma_layout_bounds(bits);
    }
    let blocks: u32 = if bits == 0 {
        1
    } else {
        if bits % BLOCK_BITS == 0 {
            bits / BLOCK_BITS
        } else {
            bits / BLOCK_BITS + 1
        }
    };
    assert(blocks == spec_blocks(bits)) by {
        if bits != 0 {
            vstd::arithmetic::div_mod::lemma_fundamental_div_mod(bits as int, 512);
            vstd::arithmetic::div_mod::lemma_fundamental_div_mod(bits + 511, 512);
            vstd::arithmetic::div_mod::lemma_mod_bound(bits as int, 512);
            vstd::arithmetic::div_mod::lemma_mod_bound(bits + 511, 512);
        }
    }
    let a1: u32 = (blocks + (SLAB_BITS - 1)) / SLAB_BITS;
    let a2_off: u32 = BLOCK_SLABS * ((a1 + (BLOCK_SLABS - 1)) / BLOCK_SLABS);
    (blocks, a2_off)
}

/// Bitmap memory footprint calculation: the byte size of a block able to
/// back `bits` positions, both arrays and alignment padding included.
/// Deterministic, callable ahead of initialization; `bits == 0` is given
/// the reserved minimum footprint of a single block.
pub fn memory_footprint(bits: u32) -> (r: u32)
    ensures
        r as int == spec_footprint(bits),
{
    proof {
        lemma_layout_bounds(bits);
    }
    let (blocks, a2_off) = layout(bits);
    8 * (a2_off + BLOCK_SLABS * blocks)
}

/// The abstract state of a bitmap: the configured bit count, the fine
/// array2 slabs, the summary bits of array1 (one per block), and the
/// scan cursor (the array2 slab index where the next `scan` starts).
#[verifier::ext_equal]
pub struct BitmapView {
    pub bits: u32,
    pub slabs: Seq<u64>,
    pub summary: Seq<bool>,
    pub cursor: int,
}

/// Bit `off` of a slab.
pub open spec fn slab_bit(slab: u64, off: int) -> bool {
    (slab >> (off as u64)) & 1 == 1
}

/// Whether some slab of block `b` is nonzero.
pub open spec fn block_nonempty(slabs: Seq<u64>, b: int) -> bool {
    exists|j: int| 8 * b <= j < 8 * b + 8 && #[trigger] slabs[j] != 0
}

/// The abstract invariant: the extents match the bit count, the cursor
/// is a valid slab index, slabs wholly past the in-range positions stay
/// zero, and the summary level is faithful — block `b` is marked
/// exactly when one of its slabs is nonzero.
pub open spec fn inv(v: BitmapView) -> bool {
    &&& v.bits > 0
    &&& v.summary.len() == spec_blocks(v.bits)
    &&& v.slabs.len() == 8 * spec_blocks(v.bits)
    &&& 0 <= v.cursor < v.slabs.len()
    &&& forall|j: int| spec_used_slabs(v.bits) <= j < v.slabs.len() ==> #[trigger] v.slabs[j] == 0
    &&& forall|b: int|
        0 <= b < v.summary.len() ==> (#[trigger] v.summary[b] <==> block_nonempty(v.slabs, b))
}

/// The value of the flag at `pos`.
pub open spec fn spec_bit(v: BitmapView, pos: int) -> bool {
    slab_bit(v.slabs[pos / 64], pos % 64)
}

/// The state after `set(pos)`: the bit is or-ed into its slab and the
/// owning block is marked in the summary.
pub open spec fn spec_set_tr(v: BitmapView, pos: int) -> BitmapView {
    let i = pos / 64;
    BitmapView {
        slabs: v.slabs.update(i, v.slabs[i] | (1u64 << ((pos % 64) as u64))),
        summary: v.summary.update(pos / 512, true),
        ..v
    }
}

/// The state after `clear(pos)`: the bit is masked out of its slab and
/// the owning block's summary bit is recomputed.
pub open spec fn spec_clear_tr(v: BitmapView, pos: int) -> BitmapView {
    let i = pos / 64;
    let slabs2 = v.slabs.update(i, v.slabs[i] & !(1u64 << ((pos % 64) as u64)));
    BitmapView {
        slabs: slabs2,
        summary: v.summary.update(pos / 512, block_nonempty(slabs2, pos / 512)),
        ..v
    }
}

/// The state after `set_slab(pos, slab)`: the whole slab containing
/// `pos` is replaced and the owning block's summary bit is recomputed.
pub open spec fn spec_set_slab_tr(v: BitmapView, pos: int, slab: u64) -> BitmapView {
    let slabs2 = v.slabs.update(pos / 64, slab);
    BitmapView {
        slabs: slabs2,
        summary: v.summary.update(pos / 512, block_nonempty(slabs2, pos / 512)),
        ..v
    }
}

/// The state after `reset()`: everything cleared, cursor rewound.
pub open spec fn spec_reset_tr(v: BitmapView) -> BitmapView {
    BitmapView {
        slabs: Seq::new(v.slabs.len(), |i: int| 0u64),
        summary: Seq::new(v.summary.len(), |b: int| false),
        cursor: 0,
        ..v
    }
}

/// Index arithmetic shared by the position-addressed operations: where a
/// position's slab, block and in-slab offset fall.
pub(crate) proof fn lemma_pos_arith(pos: int, blocks: int)
    requires
        0 <= pos < 512 * blocks,
    ensures
        0 <= pos % 64 < 64,
        0 <= pos / 512 < blocks,
        8 * (pos / 512) <= pos / 64 < 8 * (pos / 512) + 8,
        0 <= pos / 64 < 8 * blocks,
        0 <= (pos / 512) % 64 < 64,
        0 <= (pos / 512) / 64 < (blocks + 63) / 64,
        pos / 64 == 8 * (pos / 512) + (pos % 512) / 64,
{
    let b = pos / 512;
    let r = pos % 512;
    vstd::arithmetic::div_mod::lemma_fundamental_div_mod(pos, 512);
    vstd::arithmetic::div_mod::lemma_mod_bound(pos, 512);
    vstd::arithmetic::div_mod::lemma_fundamental_div_mod(r, 64);
    vstd::arithmetic::div_mod::lemma_mod_bound(r, 64);
    assert(0 <= b < blocks);
    let q2 = 8 * b + r / 64;
    assert(pos == q2 * 64 + (r % 64));
    vstd::arithmetic::div_mod::lemma_fundamental_div_mod_converse(pos, 64, q2, r % 64);
    assert(0 <= r / 64 < 8);
    vstd::arithmetic::div_mod::lemma_fundamental_div_mod(b, 64);
    vstd::arithmetic::div_mod::lemma_mod_bound(b, 64);
    let i1 = b / 64;
    assert(blocks + 63 >= (i1 + 1) * 64 + 0);
    assert((blocks + 63) / 64 >= i1 + 1) by {
        lemma_div_is_ordered((i1 + 1) * 64, blocks + 63, 64);
        vstd::arithmetic::div_mod::lemma_fundamental_div_mod_converse(
            (i1 + 1) * 64,
            64,
            i1 + 1,
            0,
        );
    }
}

/// A position below `bits` lives in a slab that carries in-range
/// positions.
pub(crate) proof fn lemma_pos_used(pos: int, bits: u32)
    requires
        0 <= pos < bits,
    ensures
        0 <= pos / 64 < spec_used_slabs(bits),
{
    vstd::arithmetic::div_mod::lemma_div_pos_is_pos(pos, 64);
    lemma_div_is_ordered(pos, bits - 1, 64);
    assert(spec_used_slabs(bits) == (bits - 1) / 64 + 1) by {
        vstd::arithmetic::div_mod::lemma_div_plus_one(bits - 1, 64);
    }
}

/// The slab index at cyclic offset `k` from cursor `c` in an `n`-slab
/// array: indices wrap around at `n`.
pub open spec fn wrap_pos(c: int, k: int, n: int) -> int {
    if c + k < n {
        c + k
    } else {
        c + k - n
    }
}

/// The first cyclic offset at or after `k`, looking from cursor `c` and
/// wrapping once around the slab array, whose slab is nonzero — `None`
/// when the rest of the pass sits on zero slabs. This is the whole
/// behaviour of one `scan` call.
pub open spec fn fso(slabs: Seq<u64>, c: int, k: int) -> Option<int>
    decreases slabs.len() - k,
{
    if k < 0 || k >= slabs.len() || !(0 <= c < slabs.len()) {
        None
    } else if slabs[wrap_pos(c, k, slabs.len() as int)] != 0 {
        Some(k)
    } else {
        fso(slabs, c, k + 1)
    }
}

/// What `fso` says: a `Some(o)` points at a nonzero slab and every
/// offset passed over on the way sits on a zero slab; a `None` means
/// every offset from `k` to the end of the pass sits on a zero slab.
pub proof fn lemma_fso_spec(slabs: Seq<u64>, c: int, k: int)
    requires
        0 <= c < slabs.len(),
        0 <= k,
    ensures
        match fso(slabs, c, k) {
            Option::Some(o) => {
                &&& k <= o < slabs.len()
                &&& slabs[wrap_pos(c, o, slabs.len() as int)] != 0
                &&& forall|j: int|
                    k <= j < o ==> slabs[#[trigger] wrap_pos(c, j, slabs.len() as int)] == 0
            },
            Option::None => forall|j: int|
                k <= j < slabs.len() ==> slabs[#[trigger] wrap_pos(c, j, slabs.len() as int)]
                    == 0,
        },
    decreases slabs.len() - k,
{
    if k >= slabs.len() {
    } else if slabs[wrap_pos(c, k, slabs.len() as int)] != 0 {
    } else {
        lemma_fso_spec(slabs, c, k + 1);
    }
}

/// The converse: `k` zero offsets followed by a nonzero slab pin the
/// first set offset at exactly `k`.
proof fn lemma_fso_char(slabs: Seq<u64>, c: int, k: int)
    requires
        0 <= c < slabs.len(),
        0 <= k < slabs.len(),
        slabs[wrap_pos(c, k, slabs.len() as int)] != 0,
        forall|j: int| 0 <= j < k ==> slabs[#[trigger] wrap_pos(c, j, slabs.len() as int)] == 0,
    ensures
        fso(slabs, c, 0) == Some(k),
{
    lemma_fso_char_from(slabs, c, 0, k);
}

proof fn lemma_fso_char_from(slabs: Seq<u64>, c: int, m: int, k: int)
    requires
        0 <= c < slabs.len(),
        0 <= m <= k < slabs.len(),
        slabs[wrap_pos(c, k, slabs.len() as int)] != 0,
        forall|j: int| m <= j < k ==> slabs[#[trigger] wrap_pos(c, j, slabs.len() as int)] == 0,
    ensures
        fso(slabs, c, m) == Some(k),
    decreases k - m,
{
    if m < k {
        assert(slabs[wrap_pos(c, m, slabs.len() as int)] == 0);
        lemma_fso_char_from(slabs, c, m + 1, k);
    }
}

/// A scan finds nothing exactly when the whole slab array is zero,
/// whatever the cursor.
pub proof fn lemma_fso_none_iff_empty(slabs: Seq<u64>, c: int)
    requires
        0 <= c < slabs.len(),
    ensures
        (fso(slabs, c, 0) is None) <==> (forall|i: int| 0 <= i < slabs.len() ==> slabs[i] == 0),
{
    let n = slabs.len() as int;
    lemma_fso_spec(slabs, c, 0);
    if fso(slabs, c, 0) is None {
        assert forall|i: int| 0 <= i < n implies slabs[i] == 0 by {
            let j = if i >= c {
                i - c
            } else {
                i + n - c
            };
            assert(0 <= j < n);
            assert(wrap_pos(c, j, n) == i);
            assert(slabs[wrap_pos(c, j, n)] == 0);
        }
    } else {
        let o = fso(slabs, c, 0)->Some_0;
        assert(slabs[wrap_pos(c, o, n)] != 0);
        assert(0 <= wrap_pos(c, o, n) < n);
    }
}

/// Or-ing one bit into a slab: the bit reads back set, the slab becomes
/// nonzero, and every other bit keeps its value.
pub(crate) proof fn lemma_or_bit(x: u64, j: u64)
    by (bit_vector)
    requires
        j < 64,
    ensures
        ((x | (1u64 << j)) >> j) & 1 == 1,
        (x | (1u64 << j)) != 0,
        forall|q: u64|
            q < 64 && q != j ==> #[trigger] (((x | (1u64 << j)) >> q) & 1) == (x >> q) & 1,
{
}

/// Masking one bit out of a slab: the bit reads back clear, every other
/// bit keeps its value, and a nonzero result means the slab was nonzero.
pub(crate) proof fn lemma_and_not_bit(x: u64, j: u64)
    by (bit_vector)
    requires
        j < 64,
    ensures
        ((x & !(1u64 << j)) >> j) & 1 == 0,
        (x & !(1u64 << j)) != 0 ==> x != 0,
        forall|q: u64|
            q < 64 && q != j ==> #[trigger] (((x & !(1u64 << j)) >> q) & 1) == (x >> q) & 1,
{
}

/// Two distinct blocks sharing an array1 slab use distinct bit offsets.
proof fn lemma_same_slot_distinct(b1: int, b2: int)
    requires
        b1 != b2,
        b1 / 64 == b2 / 64,
        0 <= b1,
        0 <= b2,
    ensures
        b1 % 64 != b2 % 64,
{
    vstd::arithmetic::div_mod::lemma_fundamental_div_mod(b1, 64);
    vstd::arithmetic::div_mod::lemma_fundamental_div_mod(b2, 64);
}

/// Block occupancy only depends on the block's own eight slabs.
pub(crate) proof fn lemma_block_nonempty_congruence(s1: Seq<u64>, s2: Seq<u64>, b: int)
    requires
        forall|j: int| 8 * b <= j < 8 * b + 8 ==> s1[j] == #[trigger] s2[j],
    ensures
        block_nonempty(s1, b) == block_nonempty(s2, b),
{
    if block_nonempty(s1, b) {
        let j = choose|j: int| 8 * b <= j < 8 * b + 8 && #[trigger] s1[j] != 0;
        assert(s2[j] != 0);
    }
    if block_nonempty(s2, b) {
        let j = choose|j: int| 8 * b <= j < 8 * b + 8 && #[trigger] s2[j] != 0;
        assert(s1[j] != 0);
    }
}

/// The abstract invariant survives an operation that touches one block:
/// outside block `bv` nothing moved, and inside it the summary bit was
/// recomputed to match.
proof fn lemma_inv_after(pre: BitmapView, post: BitmapView, bv: int)
    requires
        inv(pre),
        post.bits == pre.bits,
        post.summary.len() == pre.summary.len(),
        post.slabs.len() == pre.slabs.len(),
        0 <= post.cursor < post.slabs.len(),
        0 <= bv < pre.summary.len(),
        forall|j: int|
            0 <= j < pre.slabs.len() && !(8 * bv <= j < 8 * bv + 8) ==> #[trigger] post.slabs[j]
                == pre.slabs[j],
        forall|j: int|
            spec_used_slabs(pre.bits) <= j < pre.slabs.len() ==> #[trigger] post.slabs[j]
                == pre.slabs[j],
        forall|b: int|
            0 <= b < pre.summary.len() && b != bv ==> #[trigger] post.summary[b]
                == pre.summary[b],
        post.summary[bv] <==> block_nonempty(post.slabs, bv),
    ensures
        inv(post),
{
    assert forall|j: int|
        spec_used_slabs(post.bits) <= j < post.slabs.len() implies #[trigger] post.slabs[j]
        == 0 by {
        assert(pre.slabs[j] == 0);
    }
    assert forall|b: int| 0 <= b < post.summary.len() implies (#[trigger] post.summary[b]
        <==> block_nonempty(post.slabs, b)) by {
        if b != bv {
            assert(8 * b + 8 <= post.slabs.len());
            assert forall|j: int| 8 * b <= j < 8 * b + 8 implies post.slabs[j] == #[trigger] pre
                .slabs[j] by {
                assert(!(8 * bv <= j < 8 * bv + 8));
            }
            lemma_block_nonempty_congruence(post.slabs, pre.slabs, b);
        }
    }
}

/// The hierarchical scan bitmap.
///
/// Lives inside one caller-supplied block of slabs: array1 (the summary)
/// at slab offset 0, padded to whole cache lines, then array2 (the fine
/// bits). Construction goes through [`Bitmap::init`]; the block comes
/// back out through [`Bitmap::free`].
pub struct Bitmap {
    bits: u32,
    n_blocks: u32,
    array2_off: u32,
    cursor: u32,
    mem: Vec<u64>,
}

impl View for Bitmap {
    type V = BitmapView;

    closed spec fn view(&self) -> BitmapView {
        BitmapView {
            bits: self.bits,
            slabs: self.mem@.subrange(
                self.array2_off as int,
                self.array2_off as int + 8 * (self.n_blocks as int),
            ),
            summary: Seq::new(
                self.n_blocks as nat,
                |b: int| slab_bit(self.mem@[b / 64], b % 64),
            ),
            cursor: self.cursor as int,
        }
    }
}

/// Where block `b`'s summary bit lives inside array1.
proof fn lemma_block_slot(b: int, blocks: int)
    requires
        0 <= b < blocks,
    ensures
        0 <= b / 64 < (blocks + 63) / 64,
        0 <= b % 64 < 64,
{
    vstd::arithmetic::div_mod::lemma_fundamental_div_mod(b, 64);
    vstd::arithmetic::div_mod::lemma_mod_bound(b, 64);
    assert(b <= 64 * (b / 64) + 63);
    lemma_div_is_ordered(64 * (b / 64) + 64, blocks + 63, 64);
    vstd::arithmetic::div_mod::lemma_fundamental_div_mod_converse(
        64 * (b / 64) + 64,
        64,
        b / 64 + 1,
        0,
    );
}

/// How the view moves under one slab write in array2 and one in array1:
/// the slab sequence gets a point update, and summary bits can move only
/// inside the rewritten array1 slab.
proof fn lemma_two_writes_view(pre: Bitmap, post: Bitmap, i2: int, s2: u64, i1: int, s1: u64)
    requires
        post.bits == pre.bits,
        post.n_blocks == pre.n_blocks,
        post.array2_off == pre.array2_off,
        post.cursor == pre.cursor,
        pre.n_blocks as int == spec_blocks(pre.bits),
        pre.array2_off as int == spec_array2_off(pre.bits),
        pre.mem@.len() >= spec_total_slabs(pre.bits),
        0 <= i2 < 8 * (pre.n_blocks as int),
        0 <= i1 < spec_array1_slabs(pre.bits),
        post.mem@ == pre.mem@.update(pre.array2_off as int + i2, s2).update(i1, s1),
    ensures
        post@.slabs == pre@.slabs.update(i2, s2),
        post@.summary.len() == pre@.summary.len(),
        post@.slabs.len() == pre@.slabs.len(),
        post@.bits == pre@.bits,
        post@.cursor == pre@.cursor,
        forall|b: int|
            0 <= b < pre.n_blocks as int && b / 64 != i1 ==> #[trigger] post@.summary[b]
                == pre@.summary[b],
        forall|b: int|
            0 <= b < pre.n_blocks as int && b / 64 == i1 ==> #[trigger] post@.summary[b]
                == slab_bit(s1, b % 64),
{
    lemma_layout_bounds(pre.bits);
    assert(post@.slabs =~= pre@.slabs.update(i2, s2)) by {
        assert forall|k: int| 0 <= k < 8 * (pre.n_blocks as int) implies #[trigger] post@.slabs[k]
            == pre@.slabs.update(i2, s2)[k] by {
            assert(post@.slabs[k] == post.mem@[pre.array2_off as int + k]);
            assert(pre@.slabs[k] == pre.mem@[pre.array2_off as int + k]);
            assert(i1 < pre.array2_off as int);
        }
    }
    assert forall|b: int| 0 <= b < pre.n_blocks as int implies (#[trigger] post@.summary[b] == if b
        / 64 == i1 {
        slab_bit(s1, b % 64)
    } else {
        slab_bit(pre.mem@[b / 64], b % 64)
    }) by {
        lemma_block_slot(b, pre.n_blocks as int);
        assert(b / 64 < pre.array2_off as int);
        assert(post.mem@[b / 64] == if b / 64 == i1 {
            s1
        } else {
            pre.mem@[b / 64]
        });
    }
}

/// How the view moves under a single array1 slab write: the fine slabs
/// stay put, and summary bits can move only inside the rewritten slab.
proof fn lemma_array1_write_view(pre: Bitmap, post: Bitmap, i1: int, s1: u64)
    requires
        post.bits == pre.bits,
        post.n_blocks == pre.n_blocks,
        post.array2_off == pre.array2_off,
        post.cursor == pre.cursor,
        pre.n_blocks as int == spec_blocks(pre.bits),
        pre.array2_off as int == spec_array2_off(pre.bits),
        pre.mem@.len() >= spec_total_slabs(pre.bits),
        0 <= i1 < spec_array1_slabs(pre.bits),
        post.mem@ == pre.mem@.update(i1, s1),
    ensures
        post@.slabs == pre@.slabs,
        post@.summary.len() == pre@.summary.len(),
        post@.bits == pre@.bits,
        post@.cursor == pre@.cursor,
        forall|b: int|
            0 <= b < pre.n_blocks as int && b / 64 != i1 ==> #[trigger] post@.summary[b]
                == pre@.summary[b],
        forall|b: int|
            0 <= b < pre.n_blocks as int && b / 64 == i1 ==> #[trigger] post@.summary[b]
                == slab_bit(s1, b % 64),
{
    lemma_layout_bounds(pre.bits);
    assert(post@.slabs =~= pre@.slabs) by {
        assert forall|k: int| 0 <= k < 8 * (pre.n_blocks as int) implies #[trigger] post@.slabs[k]
            == pre@.slabs[k] by {
            assert(post@.slabs[k] == post.mem@[pre.array2_off as int + k]);
            assert(pre@.slabs[k] == pre.mem@[pre.array2_off as int + k]);
            assert(i1 < pre.array2_off as int);
        }
    }
    assert forall|b: int| 0 <= b < pre.n_blocks as int implies (#[trigger] post@.summary[b] == if b
        / 64 == i1 {
        slab_bit(s1, b % 64)
    } else {
        slab_bit(pre.mem@[b / 64], b % 64)
    }) by {
        lemma_block_slot(b, pre.n_blocks as int);
        assert(b / 64 < pre.array2_off as int);
        assert(post.mem@[b / 64] == if b / 64 == i1 {
            s1
        } else {
            pre.mem@[b / 64]
        });
    }
}

/// How the view moves under a single array2 slab write: a point update
/// of the slab sequence, with the summary untouched.
proof fn lemma_one_write_view(pre: Bitmap, post: Bitmap, i2: int, s2: u64)
    requires
        post.bits == pre.bits,
        post.n_blocks == pre.n_blocks,
        post.array2_off == pre.array2_off,
        post.cursor == pre.cursor,
        pre.n_blocks as int == spec_blocks(pre.bits),
        pre.array2_off as int == spec_array2_off(pre.bits),
        pre.mem@.len() >= spec_total_slabs(pre.bits),
        0 <= i2 < 8 * (pre.n_blocks as int),
        post.mem@ == pre.mem@.update(pre.array2_off as int + i2, s2),
    ensures
        post@.slabs == pre@.slabs.update(i2, s2),
        post@.summary == pre@.summary,
        post@.bits == pre@.bits,
        post@.cursor == pre@.cursor,
{
    lemma_layout_bounds(pre.bits);
    assert(post@.slabs =~= pre@.slabs.update(i2, s2)) by {
        assert forall|k: int| 0 <= k < 8 * (pre.n_blocks as int) implies #[trigger] post@.slabs[k]
            == pre@.slabs.update(i2, s2)[k] by {
            assert(post@.slabs[k] == post.mem@[pre.array2_off as int + k]);
            assert(pre@.slabs[k] == pre.mem@[pre.array2_off as int + k]);
        }
    }
    assert(post@.summary =~= pre@.summary) by {
        assert forall|b: int| 0 <= b < pre.n_blocks as int implies #[trigger] post@.summary[b]
            == pre@.summary[b] by {
            lemma_block_slot(b, pre.n_blocks as int);
            assert(b / 64 < pre.array2_off as int);
            assert(post.mem@[b / 64] == pre.mem@[b / 64]);
        }
    }
}

impl Bitmap {
    /// Well-formedness: the layout fields agree with the configured bit
    /// count, the backing block is big enough, and the view satisfies
    /// the abstract invariant.
    pub closed spec fn wf(&self) -> bool {
        &&& self.n_blocks as int == spec_blocks(self.bits)
        &&& self.array2_off as int == spec_array2_off(self.bits)
        &&& self.mem@.len() >= spec_total_slabs(self.bits)
        &&& inv(self@)
    }

    /// The backing memory block as the structure holds it, slab for
    /// slab. Exposed so `init` and `free` can promise the caller the
    /// block's fate: what `init` writes, what every operation leaves
    /// alone, and what `free` hands back.
    pub closed spec fn backing(&self) -> Seq<u64> {
        self.mem@
    }

    /// A well-formed bitmap's view satisfies the abstract invariant.
    pub proof fn lemma_wf_inv(&self)
        requires
            self.wf(),
        ensures
            inv(self@),
    {
    }

    /// The two-level invariant as a law of its own: a block's summary
    /// bit is set exactly when at least one slab of that block is
    /// nonzero. It holds after every operation, since each operation
    /// ensures well-formedness.
    pub proof fn lemma_summary_faithful(&self, b: int)
        requires
            self.wf(),
            0 <= b < self@.summary.len(),
        ensures
            self@.summary[b] <==> block_nonempty(self@.slabs, b),
    {
    }

    /// Bitmap initialization, in place over the caller's memory block.
    ///
    /// `mem_size` is the size of the block in bytes; the block itself is
    /// handed over as slabs and must really carry `mem_size` bytes. Both
    /// arrays are zeroed: the result is in the state `reset` gives.
    /// Only the layout's slabs are written: whatever the caller had past
    /// the footprint stays in the block, word for word, until `free`
    /// returns it. Fails with `InvalidArgument` — and only then — when
    /// `bits` is zero, when `mem_size` is under the footprint, or when
    /// the block is smaller than `mem_size` claims.
    pub fn init(bits: u32, mem: Vec<u64>, mem_size: u32) -> (r: Result<Bitmap, BitmapError>)
        ensures
            (r is Ok) <==> (bits > 0 && mem_size as int >= spec_footprint(bits) && 8 * mem@.len()
                >= mem_size as int),
            r matches Ok(bm) ==> ({
                &&& bm.wf()
                &&& bm@.bits == bits
                &&& bm@.cursor == 0
                &&& bm@.slabs.len() == 8 * spec_blocks(bits)
                &&& bm@.summary.len() == spec_blocks(bits)
                &&& forall|i: int| 0 <= i < bm@.slabs.len() ==> bm@.slabs[i] == 0
                &&& forall|b: int| 0 <= b < bm@.summary.len() ==> !bm@.summary[b]
                &&& bm.backing().len() == mem@.len()
                &&& forall|i: int|
                    0 <= i < spec_total_slabs(bits) ==> #[trigger] bm.backing()[i] == 0
                &&& forall|i: int|
                    spec_total_slabs(bits) <= i < mem@.len() ==> #[trigger] bm.backing()[i]
                        == mem@[i]
            }),
            r matches Err(e) ==> e == BitmapError::InvalidArgument,
    {
        proof {
            lemma_layout_bounds(bits);
        }
        let footprint = memory_footprint(bits);
        if bits == 0 || mem_size < footprint {
            return Err(BitmapError::InvalidArgument);
        }
        // The block must really carry mem_size bytes: at least
        // ceil(mem_size / 8) slabs.
        let needed_slabs: u64 = (mem_size as u64 + 7) / 8;
        if (mem.len() as u64) < needed_slabs {
            proof {
                vstd::arithmetic::div_mod::lemma_fundamental_div_mod(mem_size + 7, 8);
                vstd::arithmetic::div_mod::lemma_mod_bound(mem_size + 7, 8);
            }
            return Err(BitmapError::InvalidArgument);
        }
        proof {
            vstd::arithmetic::div_mod::lemma_fundamental_div_mod(mem_size + 7, 8);
            vstd::arithmetic::div_mod::lemma_mod_bound(mem_size + 7, 8);
        }
        let (blocks, a2_off) = layout(bits);
        let total: u32 = a2_off + BLOCK_SLABS * blocks;
        assert(8 * (mem@.len() as int) >= mem_size as int);
        assert(mem@.len() >= total as int);
        let mut mem = mem;
        let ghost mem0 = mem@;
        let mut j: usize = 0;
        while j < total as usize
            invariant
                j <= total as usize,
                mem@.len() == mem0.len(),
                mem0.len() >= total as int,
                forall|k: int| 0 <= k < j ==> mem@[k] == 0,
                forall|k: int| j <= k < mem0.len() ==> #[trigger] mem@[k] == mem0[k],
            decreases total as usize - j,
        {
            mem.set(j, 0);
            j = j + 1;
        }
        let bm = Bitmap { bits, n_blocks: blocks, array2_off: a2_off, cursor: 0, mem };
        proof {
            assert forall|i: int| 0 <= i < bm@.slabs.len() implies bm@.slabs[i] == 0 by {
                assert(bm@.slabs[i] == bm.mem@[a2_off as int + i]);
            }
            assert forall|b: int| 0 <= b < bm@.summary.len() implies !bm@.summary[b] by {
                lemma_pos_arith(512 * b, blocks as int);
                assert(bm.mem@[b / 64] == 0);
                let o = (b % 64) as u64;
                assert((0u64 >> o) & 1 == 0) by (bit_vector);
            }
            assert forall|b: int| 0 <= b < bm@.summary.len() implies !block_nonempty(
                bm@.slabs,
                b,
            ) by {
                assert forall|jj: int| 8 * b <= jj < 8 * b + 8 implies bm@.slabs[jj] == 0 by {}
            }
        }
        Ok(bm)
    }

    /// Hand the backing memory block back to its owner, slab for slab
    /// and unaltered: the returned vector is the block itself, its
    /// array2 region carries the bitmap's slabs and its array1 region
    /// carries the summary bits. The bitmap's own bookkeeping is
    /// dropped with `self`; the block is never freed here — its
    /// lifetime stays the caller's responsibility.
    pub fn free(self) -> (mem: Vec<u64>)
        requires
            self.wf(),
        ensures
            mem@ == self.backing(),
            mem@.len() >= spec_total_slabs(self@.bits),
            8 * mem@.len() >= spec_footprint(self@.bits),
            mem@.subrange(
                spec_array2_off(self@.bits),
                spec_array2_off(self@.bits) + 8 * spec_blocks(self@.bits),
            ) == self@.slabs,
            forall|b: int|
                0 <= b < self@.summary.len() ==> (#[trigger] self@.summary[b] == slab_bit(
                    mem@[b / 64],
                    b % 64,
                )),
    {
        proof {
            assert forall|b: int| 0 <= b < self@.summary.len() implies (#[trigger] self@.summary[b]
                == slab_bit(self.mem@[b / 64], b % 64)) by {}
        }
        self.mem
    }

    /// Bitmap reset: clears every array2 slab and every summary bit and
    /// rewinds the scan cursor, restoring the just-initialized state.
    /// Writer-only, like `set` and `clear`.
    pub fn reset(&mut self)
        requires
            old(self).wf(),
        ensures
            final(self).wf(),
            final(self)@ == spec_reset_tr(old(self)@),
            final(self).backing().len() == old(self).backing().len(),
            forall|i: int|
                spec_total_slabs(old(self)@.bits) <= i < old(self).backing().len()
                    ==> #[trigger] final(self).backing()[i] == old(self).backing()[i],
    {
        proof {
            lemma_layout_bounds(self.bits);
        }
        let total: u32 = self.array2_off + BLOCK_SLABS * self.n_blocks;
        let ghost orig = *self;
        let mut j: usize = 0;
        while j < total as usize
            invariant
                j <= total as usize,
                self.bits == orig.bits,
                self.n_blocks == orig.n_blocks,
                self.array2_off == orig.array2_off,
                self.cursor == orig.cursor,
                self.mem@.len() == orig.mem@.len(),
                orig.mem@.len() >= total as int,
                forall|k: int| 0 <= k < j ==> self.mem@[k] == 0,
                forall|k: int| j <= k < orig.mem@.len() ==> #[trigger] self.mem@[k] == orig.mem@[k],
            decreases total as usize - j,
        {
            self.mem.set(j, 0);
            j = j + 1;
        }
        self.cursor = 0;
        proof {
            assert(total as int == spec_total_slabs(orig.bits));
            assert forall|i: int| 0 <= i < self@.slabs.len() implies self@.slabs[i] == 0 by {
                assert(self@.slabs[i] == self.mem@[self.array2_off as int + i]);
            }
            assert forall|b: int| 0 <= b < self@.summary.len() implies !self@.summary[b] by {
                lemma_pos_arith(512 * b, self.n_blocks as int);
                assert(self.mem@[b / 64] == 0);
                let o = (b % 64) as u64;
                assert((0u64 >> o) & 1 == 0) by (bit_vector);
            }
            assert forall|b: int| 0 <= b < self@.summary.len() implies !block_nonempty(
                self@.slabs,
                b,
            ) by {
                assert forall|jj: int| 8 * b <= jj < 8 * b + 8 implies self@.slabs[jj] == 0 by {}
            }
            assert(self@.slabs =~= spec_reset_tr(orig@).slabs);
            assert(self@.summary =~= spec_reset_tr(orig@).summary);
            assert(self@ =~= spec_reset_tr(orig@));
        }
    }

    /// Bitmap bit get: whether the bit at `pos` is set, read from its
    /// array2 slab. Lock-free: safe to call from any number of reader
    /// threads concurrently with the writer, whose mutations are whole
    /// 64-bit words. Rejects `pos >= bits` with `OutOfRange`.
    pub fn get(&self, pos: Position) -> (r: Result<bool, BitmapError>)
        requires
            self.wf(),
        ensures
            pos < self@.bits ==> r == Ok::<bool, BitmapError>(spec_bit(self@, pos as int)),
            pos >= self@.bits ==> r == Err::<bool, BitmapError>(BitmapError::OutOfRange),
    {
        if pos >= self.bits {
            return Err(BitmapError::OutOfRange);
        }
        proof {
            lemma_layout_bounds(self.bits);
            lemma_pos_arith(pos as int, self.n_blocks as int);
        }
        let i2: usize = (self.array2_off + pos / SLAB_BITS) as usize;
        let slab = self.mem[i2];
        proof {
            assert(self@.slabs[pos as int / 64] == self.mem@[self.array2_off as int + pos as int
                / 64]);
        }
        Ok((slab >> ((pos % SLAB_BITS) as u64)) & 1 == 1)
    }

    /// Bitmap location prefetch: touches the slab backing `pos` as a
    /// cache hint. Purely advisory — it changes nothing and is never
    /// required for correctness — and safe from readers and the writer
    /// alike. Rejects `pos >= bits` with `OutOfRange`.
    pub fn prefetch0(&self, pos: Position) -> (r: Result<(), BitmapError>)
        requires
            self.wf(),
        ensures
            pos < self@.bits ==> r == Ok::<(), BitmapError>(()),
            pos >= self@.bits ==> r == Err::<(), BitmapError>(BitmapError::OutOfRange),
    {
        if pos >= self.bits {
            return Err(BitmapError::OutOfRange);
        }
        proof {
            lemma_layout_bounds(self.bits);
            lemma_pos_arith(pos as int, self.n_blocks as int);
        }
        let i2: usize = (self.array2_off + pos / SLAB_BITS) as usize;
        let _touch = self.mem[i2];
        Ok(())
    }

    /// Bitmap bit set: sets the bit at `pos` in its array2 slab, then
    /// marks the owning block in array1. Writer-only. Rejects
    /// `pos >= bits` with `OutOfRange`, leaving the state unchanged.
    pub fn set(&mut self, pos: Position) -> (r: Result<(), BitmapError>)
        requires
            old(self).wf(),
        ensures
            final(self).wf(),
            pos < old(self)@.bits ==> r == Ok::<(), BitmapError>(()) && final(self)@
                == spec_set_tr(old(self)@, pos as int),
            pos >= old(self)@.bits ==> r == Err::<(), BitmapError>(BitmapError::OutOfRange)
                && final(self)@ == old(self)@,
            final(self).backing().len() == old(self).backing().len(),
            forall|i: int|
                spec_total_slabs(old(self)@.bits) <= i < old(self).backing().len()
                    ==> #[trigger] final(self).backing()[i] == old(self).backing()[i],
    {
        if pos >= self.bits {
            return Err(BitmapError::OutOfRange);
        }
        proof {
            lemma_layout_bounds(self.bits);
            lemma_pos_arith(pos as int, self.n_blocks as int);
        }
        let ghost pre = *self;
        let i2: usize = (self.array2_off + pos / SLAB_BITS) as usize;
        let b: u32 = pos / BLOCK_BITS;
        let i1: usize = (b / SLAB_BITS) as usize;
        let s2: u64 = self.mem[i2] | (1u64 << ((pos % SLAB_BITS) as u64));
        let s1: u64 = self.mem[i1] | (1u64 << ((b % SLAB_BITS) as u64));
        self.mem.set(i2, s2);
        self.mem.set(i1, s1);
        proof {
            let pv = pos as int;
            let bv = pv / 512;
            lemma_pos_used(pv, pre.bits);
            assert(pre.array2_off as int + pv / 64 < spec_total_slabs(pre.bits));
            assert((bv / 64) < spec_total_slabs(pre.bits));
            lemma_two_writes_view(pre, *self, pv / 64, s2, bv / 64, s1);
            lemma_or_bit(pre.mem@[pre.array2_off as int + pv / 64], (pv % 64) as u64);
            lemma_or_bit(pre.mem@[bv / 64], (bv % 64) as u64);
            assert(pre@.slabs[pv / 64] == pre.mem@[pre.array2_off as int + pv / 64]);
            assert forall|b2: int| 0 <= b2 < pre@.summary.len() implies #[trigger] self@.summary[b2]
                == pre@.summary.update(bv, true)[b2] by {
                if b2 == bv {
                    assert(self@.summary[b2] == slab_bit(s1, bv % 64));
                } else if b2 / 64 == bv / 64 {
                    lemma_same_slot_distinct(b2, bv);
                    vstd::arithmetic::div_mod::lemma_mod_bound(b2, 64);
                    vstd::arithmetic::div_mod::lemma_mod_bound(bv, 64);
                    assert(self@.summary[b2] == slab_bit(s1, b2 % 64));
                    assert(pre@.summary[b2] == slab_bit(pre.mem@[bv / 64], b2 % 64));
                }
            }
            assert(self@.summary =~= pre@.summary.update(bv, true));
            assert(self@ =~= spec_set_tr(pre@, pv));
            assert(block_nonempty(self@.slabs, bv)) by {
                assert(self@.slabs[pv / 64] == s2);
                assert(8 * bv <= pv / 64 < 8 * bv + 8);
            }
            lemma_inv_after(pre@, self@, bv);
        }
        Ok(())
    }

    /// Recompute block `b`'s array1 bit from the block's current array2
    /// slabs. Runs between a slab write and the restored invariant, so
    /// it asks only for consistent layout fields, not well-formedness.
    fn refresh_summary(&mut self, b: u32)
        requires
            old(self).n_blocks as int == spec_blocks(old(self).bits),
            old(self).array2_off as int == spec_array2_off(old(self).bits),
            old(self).mem@.len() >= spec_total_slabs(old(self).bits),
            (b as int) < old(self).n_blocks as int,
        ensures
            final(self).bits == old(self).bits,
            final(self).n_blocks == old(self).n_blocks,
            final(self).array2_off == old(self).array2_off,
            final(self).cursor == old(self).cursor,
            final(self).mem@.len() == old(self).mem@.len(),
            final(self)@.slabs == old(self)@.slabs,
            final(self)@.summary == old(self)@.summary.update(
                b as int,
                block_nonempty(old(self)@.slabs, b as int),
            ),
            forall|i: int|
                spec_total_slabs(old(self).bits) <= i < old(self).mem@.len()
                    ==> #[trigger] final(self).mem@[i] == old(self).mem@[i],
    {
        proof {
            lemma_layout_bounds(self.bits);
            lemma_block_slot(b as int, self.n_blocks as int);
            assert((b as int) / 64 < spec_total_slabs(self.bits));
        }
        let ghost pre = *self;
        let base: u32 = self.array2_off + BLOCK_SLABS * b;
        let mut nonzero = false;
        let mut t: u32 = 0;
        while t < BLOCK_SLABS
            invariant
                t <= 8,
                *self == pre,
                base == pre.array2_off + 8 * b,
                base as int + 8 <= pre.mem@.len(),
                base <= 0x401_fff8u32,
                nonzero ==> (exists|u: int|
                    0 <= u < t && #[trigger] self.mem@[base as int + u] != 0),
                !nonzero ==> (forall|u: int|
                    0 <= u < t ==> #[trigger] self.mem@[base as int + u] == 0),
            decreases 8 - t,
        {
            if self.mem[(base + t) as usize] != 0 {
                nonzero = true;
            }
            t = t + 1;
        }
        proof {
            assert forall|u: int| 0 <= u < 8 implies #[trigger] pre@.slabs[8 * (b as int) + u]
                == pre.mem@[base as int + u] by {}
            if nonzero {
                let u = choose|u: int| 0 <= u < 8 && #[trigger] pre.mem@[base as int + u] != 0;
                assert(pre@.slabs[8 * (b as int) + u] != 0);
                assert(block_nonempty(pre@.slabs, b as int));
            } else {
                assert forall|j: int| 8 * (b as int) <= j < 8 * (b as int) + 8
                    implies #[trigger] pre@.slabs[j] == 0 by {
                    assert(pre@.slabs[j] == pre.mem@[base as int + (j - 8 * (b as int))]);
                }
                assert(!block_nonempty(pre@.slabs, b as int));
            }
        }
        let i1: usize = (b / SLAB_BITS) as usize;
        let j: u64 = (b % SLAB_BITS) as u64;
        let s1: u64 = if nonzero {
            self.mem[i1] | (1u64 << j)
        } else {
            self.mem[i1] & !(1u64 << j)
        };
        self.mem.set(i1, s1);
        proof {
            let bv = b as int;
            lemma_array1_write_view(pre, *self, bv / 64, s1);
            if nonzero {
                lemma_or_bit(pre.mem@[bv / 64], j);
            } else {
                lemma_and_not_bit(pre.mem@[bv / 64], j);
            }
            assert forall|b2: int| 0 <= b2 < pre@.summary.len() implies #[trigger] self@.summary[b2]
                == pre@.summary.update(bv, block_nonempty(pre@.slabs, bv))[b2] by {
                if b2 == bv {
                    assert(self@.summary[b2] == slab_bit(s1, bv % 64));
                } else if b2 / 64 == bv / 64 {
                    lemma_same_slot_distinct(b2, bv);
                    vstd::arithmetic::div_mod::lemma_mod_bound(b2, 64);
                    vstd::arithmetic::div_mod::lemma_mod_bound(bv, 64);
                    assert(self@.summary[b2] == slab_bit(s1, b2 % 64));
                    assert(pre@.summary[b2] == slab_bit(pre.mem@[bv / 64], b2 % 64));
                }
            }
            assert(self@.summary =~= pre@.summary.update(bv, block_nonempty(pre@.slabs, bv)));
        }
    }

    /// Bitmap bit clear: clears the bit at `pos` in its array2 slab;
    /// when that leaves the whole block empty, the block's array1 bit is
    /// cleared too. Writer-only. Rejects `pos >= bits` with
    /// `OutOfRange`, leaving the state unchanged.
    pub fn clear(&mut self, pos: Position) -> (r: Result<(), BitmapError>)
        requires
            old(self).wf(),
        ensures
            final(self).wf(),
            pos < old(self)@.bits ==> r == Ok::<(), BitmapError>(()) && final(self)@
                == spec_clear_tr(old(self)@, pos as int),
            pos >= old(self)@.bits ==> r == Err::<(), BitmapError>(BitmapError::OutOfRange)
                && final(self)@ == old(self)@,
                final(self).backing().len() == old(self).backing().len(),
            forall|i: int|
                spec_total_slabs(old(self)@.bits) <= i < old(self).backing().len()
                    ==> #[trigger] final(self).backing()[i] == old(self).backing()[i],
    {
        if pos >= self.bits {
            return Err(BitmapError::OutOfRange);
        }
        proof {
            lemma_layout_bounds(self.bits);
            lemma_pos_arith(pos as int, self.n_blocks as int);
        }
        let ghost pre = *self;
        let i2: usize = (self.array2_off + pos / SLAB_BITS) as usize;
        let b: u32 = pos / BLOCK_BITS;
        let s2: u64 = self.mem[i2] & !(1u64 << ((pos % SLAB_BITS) as u64));
        self.mem.set(i2, s2);
        proof {
            lemma_one_write_view(pre, *self, pos as int / 64, s2);
            lemma_and_not_bit(
                pre.mem@[pre.array2_off as int + pos as int / 64],
                (pos as int % 64) as u64,
            );
            assert(pre@.slabs[pos as int / 64] == pre.mem@[pre.array2_off as int + pos as int
                / 64]);
        }
        if s2 != 0 {
            // The slab still carries bits, so the block stays marked:
            // its summary bit was set before and keeps its value.
            proof {
                let pv = pos as int;
                let bv = pv / 512;
                assert(self@.slabs[pv / 64] == s2);
                assert(8 * bv <= pv / 64 < 8 * bv + 8);
                assert(block_nonempty(self@.slabs, bv));
                assert(pre@.slabs[pv / 64] != 0);
                assert(block_nonempty(pre@.slabs, bv));
                assert(pre@.summary[bv]);
                assert(self@.summary =~= pre@.summary.update(
                    bv,
                    block_nonempty(self@.slabs, bv),
                ));
                assert(self@ =~= spec_clear_tr(pre@, pv));
                lemma_inv_after(pre@, self@, bv);
            }
            return Ok(());
        }
        let ghost mid = *self;
        self.refresh_summary(b);
        proof {
            let pv = pos as int;
            let bv = pv / 512;
            assert(mid@.summary == pre@.summary);
            assert(self@ =~= spec_clear_tr(pre@, pv));
            assert(self@.summary[bv] == block_nonempty(self@.slabs, bv));
            lemma_inv_after(pre@, self@, bv);
        }
        Ok(())
    }

    /// Bitmap slab set: replaces the whole 64-bit slab at the
    /// slab-aligned position containing `pos` with `slab`, then
    /// recomputes the owning block's array1 bit from the new contents —
    /// the bulk counterpart of 64 single-bit writes. Writer-only.
    /// Rejects `pos >= bits` with `OutOfRange`, leaving the state
    /// unchanged.
    pub fn set_slab(&mut self, pos: Position, slab: Slab) -> (r: Result<(), BitmapError>)
        requires
            old(self).wf(),
        ensures
            final(self).wf(),
            pos < old(self)@.bits ==> r == Ok::<(), BitmapError>(()) && final(self)@
                == spec_set_slab_tr(old(self)@, pos as int, slab),
            pos >= old(self)@.bits ==> r == Err::<(), BitmapError>(BitmapError::OutOfRange)
                && final(self)@ == old(self)@,
                final(self).backing().len() == old(self).backing().len(),
            forall|i: int|
                spec_total_slabs(old(self)@.bits) <= i < old(self).backing().len()
                    ==> #[trigger] final(self).backing()[i] == old(self).backing()[i],
    {
        if pos >= self.bits {
            return Err(BitmapError::OutOfRange);
        }
        proof {
            lemma_layout_bounds(self.bits);
            lemma_pos_arith(pos as int, self.n_blocks as int);
        }
        let ghost pre = *self;
        let i2: usize = (self.array2_off + pos / SLAB_BITS) as usize;
        let b: u32 = pos / BLOCK_BITS;
        self.mem.set(i2, slab);
        proof {
            lemma_one_write_view(pre, *self, pos as int / 64, slab);
        }
        if slab != 0 {
            let i1: usize = (b / SLAB_BITS) as usize;
            proof {
                lemma_block_slot(b as int, self.n_blocks as int);
                assert(self.mem@[b as int / 64] == pre.mem@[b as int / 64]);
            }
            let s1: u64 = self.mem[i1] | (1u64 << ((b % SLAB_BITS) as u64));
            self.mem.set(i1, s1);
            proof {
                let pv = pos as int;
                let bv = pv / 512;
                lemma_two_writes_view(pre, *self, pv / 64, slab, bv / 64, s1);
                lemma_or_bit(pre.mem@[bv / 64], (bv % 64) as u64);
                assert(block_nonempty(self@.slabs, bv)) by {
                    assert(self@.slabs[pv / 64] == slab);
                    assert(8 * bv <= pv / 64 < 8 * bv + 8);
                }
                assert forall|b2: int| 0 <= b2 < pre@.summary.len()
                    implies #[trigger] self@.summary[b2] == pre@.summary.update(bv, true)[b2] by {
                    if b2 == bv {
                        assert(self@.summary[b2] == slab_bit(s1, bv % 64));
                    } else if b2 / 64 == bv / 64 {
                        lemma_same_slot_distinct(b2, bv);
                        vstd::arithmetic::div_mod::lemma_mod_bound(b2, 64);
                        vstd::arithmetic::div_mod::lemma_mod_bound(bv, 64);
                        assert(self@.summary[b2] == slab_bit(s1, b2 % 64));
                        assert(pre@.summary[b2] == slab_bit(pre.mem@[bv / 64], b2 % 64));
                    }
                }
                assert(self@.summary =~= pre@.summary.update(bv, true));
                assert(self@.summary =~= pre@.summary.update(
                    bv,
                    block_nonempty(self@.slabs, bv),
                ));
                assert(self@ =~= spec_set_slab_tr(pre@, pv, slab));
                lemma_inv_after(pre@, self@, bv);
            }
            return Ok(());
        }
        let ghost mid = *self;
        self.refresh_summary(b);
        proof {
            let pv = pos as int;
            let bv = pv / 512;
            assert(mid@.summary == pre@.summary);
            assert(self@ =~= spec_set_slab_tr(pre@, pv, slab));
            assert(self@.summary[bv] == block_nonempty(self@.slabs, bv));
            lemma_inv_after(pre@, self@, bv);
        }
        Ok(())
    }

    /// Bitmap scan, with automatic wraparound.
    ///
    /// Finds the next nonzero array2 slab from the internal cursor —
    /// consulting array1 to skip whole empty blocks — and returns its
    /// starting bit position together with the raw slab value, so the
    /// caller can pick the set bits out itself. The cursor advances past
    /// the returned slab; at the end of the bit space it wraps to the
    /// start, so round-robin polling needs no wrap logic of its own.
    /// Returns `None` exactly when no bit in the whole bitmap is set;
    /// the cursor then stays put. Writer-only: it advances cursor state.
    pub fn scan(&mut self) -> (r: Option<(Position, Slab)>)
        requires
            old(self).wf(),
        ensures
            final(self).wf(),
            final(self)@.bits == old(self)@.bits,
            final(self)@.slabs == old(self)@.slabs,
            final(self)@.summary == old(self)@.summary,
            match fso(old(self)@.slabs, old(self)@.cursor, 0) {
                Option::None => r is None && final(self)@.cursor == old(self)@.cursor,
                Option::Some(k) => ({
                    let n = old(self)@.slabs.len() as int;
                    let i = wrap_pos(old(self)@.cursor, k, n);
                    &&& r == Some(((i * 64) as u32, old(self)@.slabs[i]))
                    &&& final(self)@.cursor == (if i + 1 == n {
                        0int
                    } else {
                        i + 1
                    })
                }),
            },
            (r is None) <==> (forall|i: int|
                0 <= i < old(self)@.slabs.len() ==> old(self)@.slabs[i] == 0),
            r matches Some(ps) ==> ps.0 < old(self)@.bits && ps.0 as int % 64 == 0 && ps.1 != 0,
            r is None ==> (forall|p: int| 0 <= p < old(self)@.bits ==> !spec_bit(old(self)@, p)),
            final(self).backing() == old(self).backing(),
    {
        proof {
            lemma_layout_bounds(self.bits);
        }
        let n: u32 = BLOCK_SLABS * self.n_blocks;
        let c: u32 = self.cursor;
        let ghost pre = *self;
        let mut k: u32 = 0;
        while k < n
            invariant
                *self == pre,
                pre == *old(self),
                pre.wf(),
                n == 8 * pre.n_blocks,
                c == pre.cursor,
                k <= n + 7,
                forall|j: int|
                    0 <= j < k && j < n ==> pre@.slabs[#[trigger] wrap_pos(
                        c as int,
                        j,
                        n as int,
                    )] == 0,
            decreases n + 8 - k,
        {
            proof {
                lemma_layout_bounds(pre.bits);
            }
            let i: u32 = if c + k < n {
                c + k
            } else {
                c + k - n
            };
            assert(i as int == wrap_pos(c as int, k as int, n as int));
            if i % BLOCK_SLABS == 0 {
                let b: u32 = i / BLOCK_SLABS;
                proof {
                    lemma_block_slot(b as int, pre.n_blocks as int);
                }
                let s1 = self.mem[(b / SLAB_BITS) as usize];
                if (s1 >> ((b % SLAB_BITS) as u64)) & 1 == 0 {
                    // Array1 says block b is entirely empty: skip its
                    // eight slabs in one step.
                    proof {
                        assert(!pre@.summary[b as int]);
                        assert(!block_nonempty(pre@.slabs, b as int));
                        assert forall|j: int| k <= j < k + 8 && j < n implies pre@.slabs[#[trigger] wrap_pos(
                            c as int,
                            j,
                            n as int,
                        )] == 0 by {
                            let idx = wrap_pos(c as int, j, n as int);
                            assert(idx == i + (j - k));
                            assert(8 * (b as int) <= idx < 8 * (b as int) + 8);
                            assert(!(pre@.slabs[idx] != 0));
                        }
                    }
                    k = k + 8;
                    continue;
                }
            }
            let v = self.mem[(self.array2_off + i) as usize];
            proof {
                assert(pre@.slabs[i as int] == pre.mem@[pre.array2_off as int + i as int]);
            }
            if v != 0 {
                proof {
                    lemma_fso_char(pre@.slabs, c as int, k as int);
                    // A nonzero slab lies below the used-slab bound, so
                    // its starting position is in range.
                    assert((i as int) < spec_used_slabs(pre.bits)) by {
                        if i as int >= spec_used_slabs(pre.bits) {
                            assert(pre@.slabs[i as int] == 0);
                        }
                    }
                    assert(64 * (spec_used_slabs(pre.bits) - 1) < pre.bits);
                    vstd::arithmetic::div_mod::lemma_mod_multiples_basic(i as int, 64);
                }
                let pos: u32 = i * SLAB_BITS;
                self.cursor = if i + 1 == n {
                    0
                } else {
                    i + 1
                };
                proof {
                    assert(self@.slabs == pre@.slabs);
                    assert(self@.summary == pre@.summary);
                }
                return Some((pos, v));
            }
            k = k + 1;
        }
        proof {
            assert forall|idx: int| 0 <= idx < n as int implies pre@.slabs[idx] == 0 by {
                let j = if idx >= c as int {
                    idx - c as int
                } else {
                    idx + n as int - c as int
                };
                assert(0 <= j < n as int);
                assert(wrap_pos(c as int, j, n as int) == idx);
                assert(pre@.slabs[wrap_pos(c as int, j, n as int)] == 0);
            }
            lemma_fso_none_iff_empty(pre@.slabs, c as int);
            assert forall|p: int| 0 <= p < pre@.bits implies !spec_bit(pre@, p) by {
                lemma_pos_used(p, pre.bits);
                vstd::arithmetic::div_mod::lemma_mod_bound(p, 64);
                assert(pre@.slabs[p / 64] == 0);
                let o = (p % 64) as u64;
                assert((0u64 >> o) & 1 == 0) by (bit_vector);
            }
        }
        None
    }
}

} // verus!
