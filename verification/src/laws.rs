//! Laws of the bitmap that relate several operations: round trips,
//! idempotence, and the completeness of a full scan pass. Each law is
//! stated over the abstract state and the transition functions that the
//! operations' own contracts use, so it applies to any sequence of
//! calls.

use vstd::prelude::*;
use crate::bitmap::{
    inv, spec_bit, spec_set_tr, spec_clear_tr, spec_blocks, BitmapView, wrap_pos, fso,
    lemma_fso_spec, lemma_fso_none_iff_empty, lemma_layout_bounds, lemma_pos_arith,
    lemma_pos_used, lemma_or_bit, lemma_and_not_bit,
};

verus! {

/// A slab none of whose 64 bits reads as set is the zero word: a
/// nonzero word exposes the bit at its trailing-zero count.
proof fn lemma_slab_no_bits_zero(x: u64)
    requires
        forall|q: u64| q < 64 ==> #[trigger] ((x >> q) & 1) != 1,
    ensures
        x == 0,
{
    vstd::std_specs::bits::axiom_u64_trailing_zeros(x);
    if x != 0 {
        let tz = vstd::std_specs::bits::u64_trailing_zeros(x) as u64;
        assert((x >> tz) & 1 == 1);
        assert((x >> tz) & 1 != 1);
    }
}

/// At bit granularity: on a state whose padding positions (at and past
/// `bits`) are all clear, a scan comes back empty exactly when no valid
/// bit is set. (`set_slab` may write padding bits inside the last
/// in-range slab; on such a state only the "empty scan means no valid
/// bit" direction holds, and that one is part of `scan`'s own
/// contract.)
pub proof fn lemma_scan_none_iff_no_bit(v: BitmapView)
    requires
        inv(v),
        forall|p: int| v.bits <= p < 64 * v.slabs.len() ==> !spec_bit(v, p),
    ensures
        (fso(v.slabs, v.cursor, 0) is None) <==> (forall|p: int|
            0 <= p < v.bits ==> !spec_bit(v, p)),
{
    let n = v.slabs.len() as int;
    lemma_layout_bounds(v.bits);
    lemma_fso_none_iff_empty(v.slabs, v.cursor);
    if fso(v.slabs, v.cursor, 0) is None {
        assert forall|p: int| 0 <= p < v.bits implies !spec_bit(v, p) by {
            lemma_pos_used(p, v.bits);
            vstd::arithmetic::div_mod::lemma_mod_bound(p, 64);
            assert(v.slabs[p / 64] == 0);
            let o = (p % 64) as u64;
            assert((0u64 >> o) & 1 == 0) by (bit_vector);
        }
    }
    if forall|p: int| 0 <= p < v.bits ==> !spec_bit(v, p) {
        assert forall|j: int| 0 <= j < n implies v.slabs[j] == 0 by {
            assert forall|q: u64| q < 64 implies #[trigger] ((v.slabs[j] >> q) & 1) != 1 by {
                let p = 64 * j + q as int;
                assert(0 <= p < 64 * n);
                vstd::arithmetic::div_mod::lemma_fundamental_div_mod_converse(p, 64, j, q as int);
                assert(!spec_bit(v, p));
                assert(((p % 64) as u64) == q);
            }
            lemma_slab_no_bits_zero(v.slabs[j]);
        }
    }
}

/// Round trip, set then get: after `set(p)` the flag at `p` reads true,
/// for every valid `p`.
pub proof fn lemma_set_then_get(v: BitmapView, pos: int)
    requires
        inv(v),
        0 <= pos < v.bits,
    ensures
        spec_bit(spec_set_tr(v, pos), pos),
{
    lemma_layout_bounds(v.bits);
    lemma_pos_arith(pos, spec_blocks(v.bits));
    lemma_or_bit(v.slabs[pos / 64], (pos % 64) as u64);
}

/// Round trip, clear then get: after `clear(p)` the flag at `p` reads
/// false, for every valid `p`.
pub proof fn lemma_clear_then_get(v: BitmapView, pos: int)
    requires
        inv(v),
        0 <= pos < v.bits,
    ensures
        !spec_bit(spec_clear_tr(v, pos), pos),
{
    lemma_layout_bounds(v.bits);
    lemma_pos_arith(pos, spec_blocks(v.bits));
    lemma_and_not_bit(v.slabs[pos / 64], (pos % 64) as u64);
}

/// Setting a bit twice is the same as setting it once.
pub proof fn lemma_set_idempotent(v: BitmapView, pos: int)
    requires
        inv(v),
        0 <= pos < v.bits,
    ensures
        spec_set_tr(spec_set_tr(v, pos), pos) == spec_set_tr(v, pos),
{
    lemma_layout_bounds(v.bits);
    lemma_pos_arith(pos, spec_blocks(v.bits));
    let v1 = spec_set_tr(v, pos);
    let v2 = spec_set_tr(v1, pos);
    let x = v.slabs[pos / 64];
    let j = (pos % 64) as u64;
    assert((x | (1u64 << j)) | (1u64 << j) == x | (1u64 << j)) by (bit_vector);
    assert(v2.slabs =~= v1.slabs);
    assert(v2.summary =~= v1.summary);
    assert(v2 =~= v1);
}

/// Clearing a bit twice is the same as clearing it once.
pub proof fn lemma_clear_idempotent(v: BitmapView, pos: int)
    requires
        inv(v),
        0 <= pos < v.bits,
    ensures
        spec_clear_tr(spec_clear_tr(v, pos), pos) == spec_clear_tr(v, pos),
{
    lemma_layout_bounds(v.bits);
    lemma_pos_arith(pos, spec_blocks(v.bits));
    let v1 = spec_clear_tr(v, pos);
    let v2 = spec_clear_tr(v1, pos);
    let x = v.slabs[pos / 64];
    let j = (pos % 64) as u64;
    assert((x & !(1u64 << j)) & !(1u64 << j) == x & !(1u64 << j)) by (bit_vector);
    assert(v2.slabs =~= v1.slabs);
    assert(v2.summary =~= v1.summary);
    assert(v2 =~= v1);
}

/// The cyclic offset of slab `i` as seen from cursor `c`: how many
/// offsets a scan starting at `c` passes before it reaches `i`.
pub open spec fn offset_of(c: int, i: int, n: int) -> int {
    if i >= c {
        i - c
    } else {
        i + n - c
    }
}

/// The slab indices one pass of repeated `scan` calls returns, starting
/// at cursor `c` with `budget` cyclic offsets left before the pass has
/// gone once around. Each step mirrors one `scan` call: the first set
/// offset is taken and the cursor advances just past it.
pub open spec fn pass_hits(slabs: Seq<u64>, c: int, budget: int) -> Seq<int>
    decreases budget,
{
    let n = slabs.len() as int;
    if budget <= 0 || !(0 <= c < n) {
        Seq::empty()
    } else {
        match fso(slabs, c, 0) {
            Option::None => Seq::empty(),
            Option::Some(k) => if 0 <= k < budget {
                seq![wrap_pos(c, k, n)] + pass_hits(
                    slabs,
                    if wrap_pos(c, k, n) + 1 == n {
                        0int
                    } else {
                        wrap_pos(c, k, n) + 1
                    },
                    budget - k - 1,
                )
            } else {
                Seq::empty()
            },
        }
    }
}

/// Advancing the cursor past offset `k` shortens every later slab's
/// offset by exactly `k + 1`.
proof fn lemma_offset_shift(c: int, k: int, i: int, n: int)
    requires
        0 <= c < n,
        0 <= k,
        k + 1 < n,
        0 <= i < n,
        k < offset_of(c, i, n),
    ensures
        offset_of(wrap_pos(c, k + 1, n), i, n) == offset_of(c, i, n) - k - 1,
{
}

/// The converse direction: an offset from the advanced cursor, still
/// inside the shortened pass, translates back by `k + 1`.
proof fn lemma_offset_unshift(c: int, k: int, i: int, n: int)
    requires
        0 <= c < n,
        0 <= k,
        k + 1 < n,
        0 <= i < n,
        offset_of(wrap_pos(c, k + 1, n), i, n) < n - k - 1,
    ensures
        offset_of(c, i, n) == k + 1 + offset_of(wrap_pos(c, k + 1, n), i, n),
{
}

/// One `scan` call consumes the head of the pass: the hit `scan`'s
/// contract describes through `fso` is the first element of
/// `pass_hits`, and the rest of the pass continues from the advanced
/// cursor with the remaining budget — exactly the cursor the call
/// leaves behind.
pub proof fn lemma_pass_step(slabs: Seq<u64>, c: int, budget: int)
    requires
        0 <= c < slabs.len(),
        0 < budget,
    ensures
        match fso(slabs, c, 0) {
            Option::None => pass_hits(slabs, c, budget) == Seq::<int>::empty(),
            Option::Some(k) => ({
                let n = slabs.len() as int;
                let i = wrap_pos(c, k, n);
                if k < budget {
                    pass_hits(slabs, c, budget) == seq![i] + pass_hits(
                        slabs,
                        if i + 1 == n {
                            0int
                        } else {
                            i + 1
                        },
                        budget - k - 1,
                    )
                } else {
                    pass_hits(slabs, c, budget) == Seq::<int>::empty()
                }
            }),
        },
{
    lemma_fso_spec(slabs, c, 0);
}

/// Scan-pass soundness: every slab a pass visits is in range and
/// nonzero.
pub proof fn lemma_pass_sound(slabs: Seq<u64>, c: int, budget: int, w: int)
    requires
        0 <= c < slabs.len(),
        0 <= w < pass_hits(slabs, c, budget).len(),
    ensures
        0 <= pass_hits(slabs, c, budget)[w] < slabs.len(),
        slabs[pass_hits(slabs, c, budget)[w]] != 0,
    decreases budget,
{
    let n = slabs.len() as int;
    lemma_fso_spec(slabs, c, 0);
    match fso(slabs, c, 0) {
        Option::None => {},
        Option::Some(k) => {
            if 0 <= k < budget {
                let i = wrap_pos(c, k, n);
                if w > 0 {
                    let c2 = if i + 1 == n {
                        0int
                    } else {
                        i + 1
                    };
                    lemma_pass_sound(slabs, c2, budget - k - 1, w - 1);
                }
            }
        },
    }
}

/// Scan-pass completeness: a nonzero slab whose offset lies inside the
/// remaining budget is visited. With the full budget of one pass, every
/// nonzero slab is.
pub proof fn lemma_pass_complete(slabs: Seq<u64>, c: int, budget: int, i: int)
    requires
        0 <= c < slabs.len(),
        0 <= i < slabs.len(),
        slabs[i] != 0,
        offset_of(c, i, slabs.len() as int) < budget,
    ensures
        pass_hits(slabs, c, budget).contains(i),
    decreases budget,
{
    let n = slabs.len() as int;
    let d = offset_of(c, i, n);
    assert(0 <= d < n);
    assert(wrap_pos(c, d, n) == i);
    lemma_fso_spec(slabs, c, 0);
    match fso(slabs, c, 0) {
        Option::None => {
            assert(slabs[wrap_pos(c, d, n)] == 0);
        },
        Option::Some(k) => {
            assert(k <= d) by {
                if k > d {
                    assert(slabs[wrap_pos(c, d, n)] == 0);
                }
            }
            let hit = wrap_pos(c, k, n);
            let h = pass_hits(slabs, c, budget);
            if k == d {
                assert(h[0] == i);
                assert(h.contains(i));
            } else {
                let c2 = if hit + 1 == n {
                    0int
                } else {
                    hit + 1
                };
                assert(c2 == wrap_pos(c, k + 1, n));
                lemma_offset_shift(c, k, i, n);
                lemma_pass_complete(slabs, c2, budget - k - 1, i);
                let rest = pass_hits(slabs, c2, budget - k - 1);
                let w = choose|w: int| 0 <= w < rest.len() && rest[w] == i;
                assert(h[w + 1] == i);
                assert(h.contains(i));
            }
        },
    }
}

/// Every offset a pass visits lies inside its budget.
proof fn lemma_pass_offset_bound(slabs: Seq<u64>, c: int, budget: int, w: int)
    requires
        0 <= c < slabs.len(),
        budget <= slabs.len(),
        0 <= w < pass_hits(slabs, c, budget).len(),
    ensures
        0 <= offset_of(c, pass_hits(slabs, c, budget)[w], slabs.len() as int) < budget,
    decreases budget,
{
    let n = slabs.len() as int;
    lemma_fso_spec(slabs, c, 0);
    match fso(slabs, c, 0) {
        Option::None => {},
        Option::Some(k) => {
            if 0 <= k < budget {
                let i = wrap_pos(c, k, n);
                assert(offset_of(c, i, n) == k);
                if w > 0 {
                    let c2 = if i + 1 == n {
                        0int
                    } else {
                        i + 1
                    };
                    assert(c2 == wrap_pos(c, k + 1, n));
                    lemma_pass_offset_bound(slabs, c2, budget - k - 1, w - 1);
                    let x = pass_hits(slabs, c2, budget - k - 1)[w - 1];
                    lemma_pass_sound(slabs, c2, budget - k - 1, w - 1);
                    lemma_offset_unshift(c, k, x, n);
                }
            }
        },
    }
}

/// Within one pass the visited offsets strictly increase: a pass moves
/// forward only.
proof fn lemma_pass_increasing(slabs: Seq<u64>, c: int, budget: int, w1: int, w2: int)
    requires
        0 <= c < slabs.len(),
        budget <= slabs.len(),
        0 <= w1 < w2 < pass_hits(slabs, c, budget).len(),
    ensures
        offset_of(c, pass_hits(slabs, c, budget)[w1], slabs.len() as int) < offset_of(
            c,
            pass_hits(slabs, c, budget)[w2],
            slabs.len() as int,
        ),
    decreases budget,
{
    let n = slabs.len() as int;
    lemma_fso_spec(slabs, c, 0);
    match fso(slabs, c, 0) {
        Option::None => {},
        Option::Some(k) => {
            if 0 <= k < budget {
                let i = wrap_pos(c, k, n);
                let c2 = if i + 1 == n {
                    0int
                } else {
                    i + 1
                };
                assert(c2 == wrap_pos(c, k + 1, n));
                let rest = pass_hits(slabs, c2, budget - k - 1);
                lemma_pass_sound(slabs, c2, budget - k - 1, w2 - 1);
                lemma_pass_offset_bound(slabs, c2, budget - k - 1, w2 - 1);
                lemma_offset_unshift(c, k, rest[w2 - 1], n);
                if w1 == 0 {
                    assert(offset_of(c, i, n) == k);
                } else {
                    lemma_pass_sound(slabs, c2, budget - k - 1, w1 - 1);
                    lemma_pass_offset_bound(slabs, c2, budget - k - 1, w1 - 1);
                    lemma_offset_unshift(c, k, rest[w1 - 1], n);
                    lemma_pass_increasing(slabs, c2, budget - k - 1, w1 - 1, w2 - 1);
                }
            }
        },
    }
}

/// A pass never visits the same slab twice.
pub proof fn lemma_pass_distinct(slabs: Seq<u64>, c: int, budget: int, w1: int, w2: int)
    requires
        0 <= c < slabs.len(),
        budget <= slabs.len(),
        0 <= w1 < w2 < pass_hits(slabs, c, budget).len(),
    ensures
        pass_hits(slabs, c, budget)[w1] != pass_hits(slabs, c, budget)[w2],
{
    lemma_pass_increasing(slabs, c, budget, w1, w2);
}

/// Scan completeness over one full pass: starting from any cursor, the
/// pass visits exactly the nonzero slabs — every one of them, each
/// exactly once.
pub proof fn lemma_pass_exact(slabs: Seq<u64>, c: int)
    requires
        0 <= c < slabs.len(),
    ensures
        forall|i: int|
            0 <= i < slabs.len() && slabs[i] != 0 ==> pass_hits(
                slabs,
                c,
                slabs.len() as int,
            ).contains(i),
        forall|w: int|
            0 <= w < pass_hits(slabs, c, slabs.len() as int).len() ==> (0 <= #[trigger] pass_hits(
                slabs,
                c,
                slabs.len() as int,
            )[w] < slabs.len() && slabs[pass_hits(slabs, c, slabs.len() as int)[w]] != 0),
        forall|w1: int, w2: int|
            0 <= w1 < w2 < pass_hits(slabs, c, slabs.len() as int).len() ==> #[trigger] pass_hits(
                slabs,
                c,
                slabs.len() as int,
            )[w1] != #[trigger] pass_hits(slabs, c, slabs.len() as int)[w2],
{
    let n = slabs.len() as int;
    assert forall|i: int| 0 <= i < n && slabs[i] != 0 implies pass_hits(slabs, c, n).contains(
        i,
    ) by {
        assert(offset_of(c, i, n) < n);
        lemma_pass_complete(slabs, c, n, i);
    }
    assert forall|w: int| 0 <= w < pass_hits(slabs, c, n).len() implies (0 <= #[trigger] pass_hits(
        slabs,
        c,
        n,
    )[w] < n && slabs[pass_hits(slabs, c, n)[w]] != 0) by {
        lemma_pass_sound(slabs, c, n, w);
    }
    assert forall|w1: int, w2: int|
        0 <= w1 < w2 < pass_hits(slabs, c, n).len() implies #[trigger] pass_hits(slabs, c, n)[w1]
        != #[trigger] pass_hits(slabs, c, n)[w2] by {
        lemma_pass_distinct(slabs, c, n, w1, w2);
    }
}

} // verus!
