//! The buddy-system allocator: 32 bins of free blocks, one per power-of-two
//! size class, over a fixed region of addressable units.
//!
//! Every executable operation is specified exactly against a pure model over
//! `Seq<Seq<u64>>` (the addresses in each bin): `alloc_model` describes the
//! search-and-split walk of an allocation, `dealloc_model` the merge walk of
//! a deallocation. The buddy-system laws in [`crate::laws`] are stated and
//! proved over these models.

use vstd::prelude::*;
use vstd::arithmetic::power2::{
    pow2, lemma_pow2_adds, lemma_pow2_pos, lemma_pow2_strictly_increases, lemma2_to64,
    lemma2_to64_rest,
};
use vstd::arithmetic::div_mod::{
    lemma_div_pos_is_pos, lemma_fundamental_div_mod, lemma_fundamental_div_mod_converse,
    lemma_mod_multiples_vanish,
};
use crate::arith::{
    class_size, class_block_size, check_power_of_two, find_size_class, is_power_of_two,
    lemma_aligned_headroom, lemma_divides_transitive, lemma_mod_double, lemma_pow2_divides,
    size_class, NUM_CLASSES,
};
use crate::free_list::{find_addr, find_fit, lemma_find_fit_some, FreeList};

verus! {

/// Why an allocation request was refused.
#[derive(Clone, Copy, Debug, PartialEq, Eq, Structural)]
pub enum AllocError {
    /// The request itself is malformed: the alignment is zero or not a
    /// power of two, or the size is zero.
    Unsupported,
    /// No free block anywhere in the region can serve the request; the
    /// request is carried along for diagnosis.
    Exhausted { size: u64, align: u64 },
}

/// The bins are well formed: there are 32 of them, and every address in bin
/// `i` is a multiple of that class's block size.
pub open spec fn wf_bins(s: Seq<Seq<u64>>) -> bool {
    &&& s.len() == NUM_CLASSES
    &&& forall|i: int, j: int|
        0 <= i < NUM_CLASSES && 0 <= j < s[i].len() ==> #[trigger] s[i][j] as int % class_size(
            i,
        ) as int == 0
}

/// The buddy of the class-`b` block at `addr`: the other half of the
/// class-`b + 1` block containing it. Toggling bit `b + 3` of the address
/// means adding the block size when the address is an even multiple of it
/// and subtracting it otherwise.
pub open spec fn buddy_addr(addr: u64, b: int) -> int
    recommends
        0 <= b < NUM_CLASSES,
        addr as int % class_size(b) as int == 0,
{
    if addr as int % (2 * class_size(b) as int) == 0 {
        addr + class_size(b)
    } else {
        addr - class_size(b)
    }
}

/// The allocation walk, starting at class `b`: take the first fitting block
/// of this class, or carve one out of the next class and leave the upper
/// half behind as a new free block of this class. Yields the chosen address
/// and the bins after the walk, or `None` when every class is out of
/// fitting blocks.
pub open spec fn alloc_model(bins: Seq<Seq<u64>>, b: int, align: u64) -> Option<
    (u64, Seq<Seq<u64>>),
>
    recommends
        wf_bins(bins),
        align >= 1,
    decreases NUM_CLASSES - b,
{
    if b < 0 || b >= NUM_CLASSES {
        None
    } else {
        match find_fit(bins[b], align) {
            Some(i) => Some((bins[b][i], bins.update(b, bins[b].remove(i)))),
            None => match alloc_model(bins, b + 1, align) {
                Some(pr) => {
                    let upper = (pr.0 + class_size(b)) as u64;
                    Some((pr.0, pr.1.update(b, pr.1[b].push(upper))))
                },
                None => None,
            },
        }
    }
}

/// The deallocation walk, starting at class `b`: when the buddy of `addr`
/// is free in this class, remove it and free the merged block one class
/// up; otherwise record `addr` as free here. A class at or beyond the last
/// bin silently drops the block.
pub open spec fn dealloc_model(bins: Seq<Seq<u64>>, addr: u64, b: int) -> Seq<Seq<u64>>
    recommends
        wf_bins(bins),
        0 <= b ==> addr as int % class_size(b) as int == 0,
    decreases NUM_CLASSES - b,
{
    if b < 0 || b >= NUM_CLASSES {
        bins
    } else {
        let bud = buddy_addr(addr, b) as u64;
        match find_addr(bins[b], bud) {
            Some(i) => {
                let merged = if addr as int <= buddy_addr(addr, b) {
                    addr
                } else {
                    bud
                };
                dealloc_model(bins.update(b, bins[b].remove(i)), merged, b + 1)
            },
            None => bins.update(b, bins[b].push(addr)),
        }
    }
}

/// Total number of units covered by the free blocks of the first `n` bins.
pub open spec fn total_free_upto(s: Seq<Seq<u64>>, n: int) -> int
    decreases n,
{
    if n <= 0 {
        0
    } else {
        total_free_upto(s, n - 1) + s[n - 1].len() * class_size(n - 1)
    }
}

/// Total number of units covered by the free blocks of all bins.
pub open spec fn total_free(s: Seq<Seq<u64>>) -> int {
    total_free_upto(s, NUM_CLASSES as int)
}

/// Every free block lies entirely within `[start, end)`.
pub open spec fn blocks_in_range(s: Seq<Seq<u64>>, start: u64, end: u64) -> bool {
    forall|i: int, j: int|
        0 <= i < NUM_CLASSES && 0 <= j < s[i].len() ==> start <= #[trigger] s[i][j] && s[i][j]
            + class_size(i) <= end
}

/// No two buddies are simultaneously free in the same class: the merge in
/// the deallocation walk keeps this.
pub open spec fn no_buddies(s: Seq<Seq<u64>>) -> bool {
    forall|i: int, j1: int, j2: int|
        #![trigger s[i][j1], s[i][j2]]
        0 <= i < NUM_CLASSES && 0 <= j1 < s[i].len() && 0 <= j2 < s[i].len() ==> s[i][j2] as int
            != buddy_addr(s[i][j1], i)
}

/// The blocks `[a1, a1 + sz1)` and `[a2, a2 + sz2)` do not overlap.
pub open spec fn blocks_disjoint(a1: u64, sz1: nat, a2: u64, sz2: nat) -> bool {
    a1 + sz1 <= a2 || a2 + sz2 <= a1
}

/// No two free blocks overlap.
pub open spec fn pairwise_disjoint(s: Seq<Seq<u64>>) -> bool {
    forall|i1: int, j1: int, i2: int, j2: int|
        #![trigger s[i1][j1], s[i2][j2]]
        0 <= i1 < NUM_CLASSES && 0 <= j1 < s[i1].len() && 0 <= i2 < NUM_CLASSES && 0 <= j2
            < s[i2].len() && !(i1 == i2 && j1 == j2) ==> blocks_disjoint(
            s[i1][j1],
            class_size(i1),
            s[i2][j2],
            class_size(i2),
        )
}

/// No free block overlaps the block `[addr, addr + sz)`: what it means for
/// that block to be allocated, owned outside the pool.
pub open spec fn free_blocks_avoid(s: Seq<Seq<u64>>, addr: u64, sz: nat) -> bool {
    forall|i: int, j: int|
        #![trigger s[i][j]]
        0 <= i < NUM_CLASSES && 0 <= j < s[i].len() ==> blocks_disjoint(
            s[i][j],
            class_size(i),
            addr,
            sz,
        )
}

/// Every free block whose address is aligned to the class above its own
/// (a lower half) has no room for its buddy before `end`. The region
/// initializer keeps this: it only leaves a lower half unmerged when the
/// region ends before the buddy would.
spec fn lower_halves_blocked(s: Seq<Seq<u64>>, end: u64) -> bool {
    forall|i: int, j: int|
        #![trigger s[i][j]]
        0 <= i < NUM_CLASSES && 0 <= j < s[i].len() && s[i][j] as int % class_size(i + 1) as int
            == 0 ==> end < s[i][j] + class_size(i + 1)
}

/// Seeding one more block at the cursor keeps the free blocks pairwise
/// disjoint: every earlier block ends at or before the cursor.
proof fn lemma_seed_push_keeps_disjoint(s: Seq<Seq<u64>>, start: u64, cursor: u64, b: int)
    requires
        s.len() == NUM_CLASSES,
        0 <= b < NUM_CLASSES,
        blocks_in_range(s, start, cursor),
        pairwise_disjoint(s),
    ensures
        pairwise_disjoint(s.update(b, s[b].push(cursor))),
{
    let t = s.update(b, s[b].push(cursor));
    let last = s[b].len() as int;
    assert(forall|j: int| 0 <= j < last ==> #[trigger] t[b][j] == s[b][j]);
    assert(t[b][last] == cursor);
    assert forall|i1: int, j1: int, i2: int, j2: int|
        #![trigger t[i1][j1], t[i2][j2]]
        0 <= i1 < NUM_CLASSES && 0 <= j1 < t[i1].len() && 0 <= i2 < NUM_CLASSES && 0 <= j2
            < t[i2].len() && !(i1 == i2 && j1 == j2) implies blocks_disjoint(
        t[i1][j1],
        class_size(i1),
        t[i2][j2],
        class_size(i2),
    ) by {
        if i1 == b && j1 == last && !(i2 == b && j2 == last) {
            assert(s[i2][j2] + class_size(i2) <= cursor);
        } else if i2 == b && j2 == last && !(i1 == b && j1 == last) {
            assert(s[i1][j1] + class_size(i1) <= cursor);
        }
    }
}

/// Seeding one more block at the cursor keeps the no-free-buddies and
/// blocked-lower-halves facts, provided the whole region cannot hold the
/// new block's buddy whenever the new block is the lower half of its pair.
proof fn lemma_seed_push_keeps_buddies(s: Seq<Seq<u64>>, start: u64, end: u64, cursor: u64, b: int)
    requires
        wf_bins(s),
        0 <= b < NUM_CLASSES,
        blocks_in_range(s, start, cursor),
        no_buddies(s),
        lower_halves_blocked(s, end),
        cursor as int % class_size(b) as int == 0,
        cursor + class_size(b) <= end,
        cursor as int % class_size(b + 1) as int == 0 ==> end < cursor + class_size(b + 1),
    ensures
        no_buddies(s.update(b, s[b].push(cursor))),
        lower_halves_blocked(s.update(b, s[b].push(cursor)), end),
{
    let cs = class_size(b) as int;
    let cs2 = class_size(b + 1) as int;
    lemma_pow2_adds((b + 3) as nat, 1);
    lemma2_to64();
    assert(cs2 == 2 * cs);
    lemma_pow2_pos((b + 3) as nat);
    lemma_buddy_props(cursor, b);
    let bud = buddy_addr(cursor, b);
    assert forall|j: int| 0 <= j < s[b].len() implies s[b][j] as int != bud by {
        assert(s[b][j] + class_size(b) <= cursor);
        if cursor as int % cs2 != 0 {
            if s[b][j] as int == bud {
                assert(s[b][j] as int % class_size(b + 1) as int == 0);
                assert(end < s[b][j] + class_size(b + 1));
                assert(false);
            }
        }
    }
    let snew = s.update(b, s[b].push(cursor));
    let last = s[b].len() as int;
    assert(forall|j: int| 0 <= j < last ==> snew[b][j] == s[b][j]);
    assert(snew[b][last] == cursor);
    assert forall|i: int, j1: int, j2: int|
        #![trigger snew[i][j1], snew[i][j2]]
        0 <= i < NUM_CLASSES && 0 <= j1 < snew[i].len() && 0 <= j2
            < snew[i].len() implies snew[i][j2] as int != buddy_addr(snew[i][j1], i) by {
        if i == b {
            if j1 == last && j2 == last {
                // a block is never its own buddy
            } else if j1 == last {
                assert(snew[i][j2] == s[b][j2]);
            } else if j2 == last {
                assert(s[b][j1] as int % class_size(b) as int == 0);
                lemma_buddy_props(s[b][j1], b);
                if cursor as int == buddy_addr(s[b][j1], b) {
                    assert(buddy_addr(cursor, b) == s[b][j1] as int);
                    assert(false);
                }
            } else {
                assert(snew[i][j1] == s[i][j1] && snew[i][j2] == s[i][j2]);
            }
        } else {
            assert(snew[i] == s[i]);
        }
    }
    assert forall|i: int, j: int|
        #![trigger snew[i][j]]
        0 <= i < NUM_CLASSES && 0 <= j < snew[i].len() && snew[i][j] as int % class_size(
            i + 1,
        ) as int == 0 implies end < snew[i][j] + class_size(i + 1) by {
        if !(i == b && j == last) {
            assert(snew[i][j] == s[i][j]);
        }
    }
}

/// With every bin empty, no units are free.
proof fn lemma_total_empty(s: Seq<Seq<u64>>, n: int)
    requires
        forall|i: int| 0 <= i < n ==> #[trigger] s[i].len() == 0,
    ensures
        total_free_upto(s, n) == 0,
    decreases n,
{
    if n > 0 {
        lemma_total_empty(s, n - 1);
        lemma_pow2_pos((n + 2) as nat);
        assert(s[n - 1].len() * class_size(n - 1) == 0) by (nonlinear_arith)
            requires
                s[n - 1].len() == 0,
        ;
    }
}

/// Pushing one address onto bin `b` adds exactly one block of class `b`
/// to the free total.
proof fn lemma_total_push(s: Seq<Seq<u64>>, b: int, x: u64, n: int)
    requires
        0 <= b < s.len(),
        n <= s.len(),
    ensures
        total_free_upto(s.update(b, s[b].push(x)), n) == total_free_upto(s, n) + if b < n {
            class_size(b) as int
        } else {
            0
        },
    decreases n,
{
    let t = s.update(b, s[b].push(x));
    if n > 0 {
        lemma_total_push(s, b, x, n - 1);
        if b == n - 1 {
            assert(t[n - 1].len() == s[n - 1].len() + 1);
            assert((s[n - 1].len() + 1) * class_size(n - 1) == s[n - 1].len() * class_size(n - 1)
                + class_size(n - 1)) by (nonlinear_arith);
        } else {
            assert(t[n - 1] == s[n - 1]);
        }
    }
}

/// Removing one address from bin `b` takes exactly one block of class `b`
/// out of the free total.
proof fn lemma_total_remove(s: Seq<Seq<u64>>, b: int, k: int, n: int)
    requires
        0 <= b < s.len(),
        0 <= k < s[b].len(),
        n <= s.len(),
    ensures
        total_free_upto(s.update(b, s[b].remove(k)), n) == total_free_upto(s, n) - if b < n {
            class_size(b) as int
        } else {
            0
        },
    decreases n,
{
    let t = s.update(b, s[b].remove(k));
    if n > 0 {
        lemma_total_remove(s, b, k, n - 1);
        if b == n - 1 {
            assert(t[n - 1].len() == s[n - 1].len() - 1);
            assert((s[n - 1].len() - 1) * class_size(n - 1) == s[n - 1].len() * class_size(n - 1)
                - class_size(n - 1)) by (nonlinear_arith);
        } else {
            assert(t[n - 1] == s[n - 1]);
        }
    }
}

/// Allocation is all-or-nothing over the pool's units: a successful walk
/// from class `b` takes exactly one class-`b` block's worth of units out of
/// the free pool, however many splits it makes on the way.
pub proof fn lemma_alloc_conserves_units(bins: Seq<Seq<u64>>, b: int, align: u64)
    requires
        wf_bins(bins),
        0 <= b,
        align >= 1,
    ensures
        match alloc_model(bins, b, align) {
            Some(pr) => total_free(pr.1) == total_free(bins) - class_size(b),
            None => true,
        },
    decreases NUM_CLASSES - b,
{
    if 0 <= b < NUM_CLASSES {
        match find_fit(bins[b], align) {
            Some(i) => {
                lemma_find_fit_some(bins[b], align, i);
                lemma_total_remove(bins, b, i, NUM_CLASSES as int);
            },
            None => {
                match alloc_model(bins, b + 1, align) {
                    Some(pr) => {
                        lemma_alloc_conserves_units(bins, b + 1, align);
                        lemma_alloc_model_props(bins, b + 1, align);
                        lemma_pow2_adds((b + 3) as nat, 1);
                        lemma2_to64();
                        lemma_total_push(
                            pr.1,
                            b,
                            (pr.0 + class_size(b)) as u64,
                            NUM_CLASSES as int,
                        );
                    },
                    None => {},
                }
            },
        }
    }
}

/// Deallocation from class `b` returns exactly one class-`b` block's worth
/// of units to the free pool, except when the merge walk runs off the last
/// class and the merged block is dropped: then the pool keeps what the walk
/// collected minus the dropped top-class pair.
pub proof fn lemma_dealloc_conserves_units(bins: Seq<Seq<u64>>, addr: u64, b: int)
    requires
        wf_bins(bins),
        0 <= b,
        b < NUM_CLASSES ==> addr as int % class_size(b) as int == 0,
    ensures
        b < NUM_CLASSES ==> total_free(dealloc_model(bins, addr, b)) <= total_free(bins)
            + class_size(b),
        b < NUM_CLASSES ==> total_free(dealloc_model(bins, addr, b)) >= total_free(bins)
            + class_size(b) - class_size(NUM_CLASSES as int),
        b >= NUM_CLASSES ==> total_free(dealloc_model(bins, addr, b)) == total_free(bins),
    decreases NUM_CLASSES - b,
{
    if 0 <= b < NUM_CLASSES {
        lemma_buddy_props(addr, b);
        lemma_pow2_adds((b + 3) as nat, 1);
        lemma_pow2_adds((b + 4) as nat, 1);
        lemma2_to64();
        let bud = buddy_addr(addr, b) as u64;
        match find_addr(bins[b], bud) {
            Some(i) => {
                crate::free_list::lemma_find_addr_some(bins[b], bud, i);
                let s1 = bins.update(b, bins[b].remove(i));
                lemma_total_remove(bins, b, i, NUM_CLASSES as int);
                lemma_wf_remove(bins, b, i);
                let merged = if addr as int <= buddy_addr(addr, b) {
                    addr
                } else {
                    bud
                };
                lemma_dealloc_conserves_units(s1, merged, b + 1);
                if b + 1 < NUM_CLASSES {
                    lemma_pow2_divides((b + 4) as nat, (NUM_CLASSES + 3) as nat);
                    lemma_pow2_strictly_increases((b + 4) as nat, (NUM_CLASSES + 3) as nat);
                }
            },
            None => {
                lemma_total_push(bins, b, addr, NUM_CLASSES as int);
                lemma_pow2_pos((b + 3) as nat);
                lemma_pow2_strictly_increases((b + 3) as nat, (NUM_CLASSES + 3) as nat);
            },
        }
    }
}

/// A buddy-system allocator over a fixed address range.
///
/// The allocator tracks only addresses: it never reads or writes the
/// memory of the region itself. Its view is the sequence of free-block
/// addresses held by each of the 32 bins.
pub struct Allocator {
    bins: Vec<FreeList>,
}

/// The views of a sequence of free lists.
spec fn views_of(a: Seq<FreeList>) -> Seq<Seq<u64>> {
    a.map_values(|x: FreeList| x@)
}

impl View for Allocator {
    type V = Seq<Seq<u64>>;

    closed spec fn view(&self) -> Seq<Seq<u64>> {
        views_of(self.bins@)
    }
}

/// Mapping the per-list views commutes with updating one list.
proof fn lemma_views_update(a: Seq<FreeList>, i: int, l: FreeList)
    requires
        0 <= i < a.len(),
    ensures
        views_of(a.update(i, l)) == views_of(a).update(i, l@),
{
    let lhs = views_of(a.update(i, l));
    let rhs = views_of(a).update(i, l@);
    assert(lhs =~= rhs);
}

impl Allocator {
    /// The bins are well formed.
    pub open spec fn wf(&self) -> bool {
        wf_bins(self@)
    }

    /// Builds an allocator over the region `[start, end)`.
    ///
    /// Walking from `start`, each step carves off the largest power-of-two
    /// block that divides the cursor's own alignment and still fits in what
    /// remains (capped at class 31's size), seeds the matching bin with it,
    /// and advances past it; pieces smaller than 8 units are dropped. The
    /// free blocks then cover the region up to at most 7 units of waste
    /// when `start` is 8-aligned, every block lies inside the region, and —
    /// for any region shorter than `2^35` units — no two buddies are free.
    pub fn new(start: u64, end: u64) -> (a: Allocator)
        ensures
            a.wf(),
            blocks_in_range(a@, start, end),
            pairwise_disjoint(a@),
            start <= end ==> total_free(a@) <= end as int - start as int,
            start <= end && start % 8 == 0 ==> total_free(a@) >= end as int - start as int - 7,
            (end as int - start as int) < pow2(35) as int ==> no_buddies(a@),
    {
        let mut bins: Vec<FreeList> = Vec::new();
        let mut i: usize = 0;
        while i < NUM_CLASSES
            invariant
                bins@.len() == i,
                i <= NUM_CLASSES,
                forall|j: int| 0 <= j < i ==> (#[trigger] bins@[j])@.len() == 0,
            decreases NUM_CLASSES - i,
        {
            bins.push(FreeList::new());
            i = i + 1;
        }
        proof {
            assert(views_of(bins@).len() == NUM_CLASSES);
            assert(forall|j: int|
                0 <= j < NUM_CLASSES ==> #[trigger] views_of(bins@)[j].len() == 0);
            lemma_total_empty(views_of(bins@), NUM_CLASSES as int);
        }
        if start >= end {
            return Allocator { bins };
        }
        let mut cursor: u64 = start;
        while cursor < end
            invariant
                start <= cursor <= end,
                bins@.len() == NUM_CLASSES,
                wf_bins(views_of(bins@)),
                blocks_in_range(views_of(bins@), start, cursor),
                pairwise_disjoint(views_of(bins@)),
                total_free(views_of(bins@)) <= cursor as int - start as int,
                start % 8 == 0 ==> (((end as int - cursor as int) >= 8 ==> cursor % 8 == 0
                    && total_free(views_of(bins@)) == cursor as int - start as int) && ((end as int
                    - cursor as int) < 8 ==> total_free(views_of(bins@)) >= end as int
                    - start as int - 7)),
                (end as int - start as int) < pow2(35) as int ==> no_buddies(views_of(bins@))
                    && lower_halves_blocked(views_of(bins@), end),
            decreases end as int - cursor as int,
        {
            let rem = end - cursor;
            proof {
                lemma2_to64();
                lemma2_to64_rest();
            }
            // largest power of two dividing the cursor, capped at class 31's
            // block size; for cursor 0 the cap itself
            let mut e1: usize = 0;
            let mut p1: u64 = 1;
            while e1 < 34 && cursor % (p1 * 2) == 0
                invariant
                    e1 <= 34,
                    p1 as nat == pow2(e1 as nat),
                    1 <= p1 <= 0x400000000u64,
                    cursor as int % p1 as int == 0,
                decreases 34 - e1,
            {
                proof {
                    lemma_pow2_adds(e1 as nat, 1);
                    lemma2_to64();
                    if e1 + 1 < 34 {
                        lemma_pow2_strictly_increases((e1 + 1) as nat, 34);
                    }
                    lemma2_to64_rest();
                    lemma_pow2_pos(e1 as nat);
                }
                p1 = p1 * 2;
                e1 = e1 + 1;
            }
            // largest power of two no larger than the remainder, same cap
            let mut e2: usize = 0;
            let mut p2: u64 = 1;
            while e2 < 34 && p2 * 2 <= rem
                invariant
                    e2 <= 34,
                    p2 as nat == pow2(e2 as nat),
                    1 <= p2 <= 0x400000000u64,
                    p2 <= rem,
                    rem == end - cursor,
                    cursor < end,
                decreases 34 - e2,
            {
                proof {
                    lemma_pow2_adds(e2 as nat, 1);
                    lemma2_to64();
                    if e2 + 1 < 34 {
                        lemma_pow2_strictly_increases((e2 + 1) as nat, 34);
                    }
                    lemma2_to64_rest();
                    lemma_pow2_pos(e2 as nat);
                }
                p2 = p2 * 2;
                e2 = e2 + 1;
            }
            let sz: u64;
            let k: usize;
            if p1 <= p2 {
                sz = p1;
                k = e1;
            } else {
                sz = p2;
                k = e2;
            }
            proof {
                lemma_pow2_pos(k as nat);
                // the chosen size still divides the cursor
                if sz == p2 && p2 < p1 {
                    if e1 <= e2 {
                        if e1 < e2 {
                            lemma_pow2_strictly_increases(e1 as nat, e2 as nat);
                        }
                        assert(false);
                    }
                    lemma_pow2_divides(e2 as nat, e1 as nat);
                    lemma_pow2_pos(e2 as nat);
                    lemma_pow2_pos(e1 as nat);
                    lemma_divides_transitive(cursor as int, p1 as int, p2 as int);
                }
                assert(cursor as int % sz as int == 0);
                assert(sz <= rem);
                // when at least 8 units remain at an 8-aligned cursor, the
                // chosen block is at least 8 units itself
                if cursor % 8 == 0 && rem >= 8 {
                    lemma2_to64();
                    if p1 < 8 {
                        assert(e1 < 3) by {
                            if e1 >= 3 {
                                if e1 > 3 {
                                    lemma_pow2_strictly_increases(3, e1 as nat);
                                }
                            }
                        }
                        lemma_pow2_divides((e1 + 1) as nat, 3);
                        lemma_pow2_pos((e1 + 1) as nat);
                        lemma_pow2_adds(e1 as nat, 1);
                        lemma_divides_transitive(cursor as int, 8, 2 * p1 as int);
                        assert(false);
                    }
                    if p2 < 8 {
                        assert(e2 < 3) by {
                            if e2 >= 3 {
                                if e2 > 3 {
                                    lemma_pow2_strictly_increases(3, e2 as nat);
                                }
                            }
                        }
                        assert(false);
                    }
                    assert(sz >= 8);
                    assert(k >= 3) by {
                        if k < 3 {
                            lemma_pow2_strictly_increases(k as nat, 3);
                        }
                    }
                }
                if k >= 3 {
                    assert(sz >= 8) by {
                        if k > 3 {
                            lemma_pow2_strictly_increases(3, k as nat);
                        }
                        lemma2_to64();
                    }
                }
            }
            if k >= 3 {
                let bin = k - 3;
                let ghost s = views_of(bins@);
                let ghost binint = bin as int;
                proof {
                    assert(class_size(binint) == sz as nat);
                    lemma_seed_push_keeps_disjoint(s, start, cursor, binint);
                    if (end as int - start as int) < pow2(35) as int {
                        lemma_pow2_adds((binint + 3) as nat, 1);
                        lemma2_to64();
                        lemma2_to64_rest();
                        if cursor as int % class_size(binint + 1) as int == 0 {
                            if k == 34 {
                                // a class-32 buddy would need 2^35 units
                                assert(class_size(binint + 1) == pow2(35));
                            } else {
                                // the alignment factor reaches past this
                                // class, so the remainder was the limit
                                if e1 <= k {
                                    assert(e1 < 34);
                                    lemma_pow2_adds(e1 as nat, 1);
                                    lemma_pow2_divides((e1 + 1) as nat, (k + 1) as nat);
                                    lemma_pow2_pos((e1 + 1) as nat);
                                    lemma_pow2_pos((k + 1) as nat);
                                    lemma_divides_transitive(
                                        cursor as int,
                                        class_size(binint + 1) as int,
                                        2 * p1 as int,
                                    );
                                    assert(false);
                                }
                                if e1 > k + 1 {
                                    lemma_pow2_strictly_increases((k + 1) as nat, e1 as nat);
                                }
                                assert(p1 as int >= class_size(binint + 1));
                                assert(sz == p2 && k == e2);
                                assert(p2 * 2 > rem);
                            }
                        }
                        lemma_seed_push_keeps_buddies(s, start, end, cursor, binint);
                    }
                }
                let ghost bl = bins@;
                bins[bin].push(cursor);
                proof {
                    lemma_views_update(bl, binint, bins@[binint]);
                    let snew = s.update(binint, s[binint].push(cursor));
                    assert(views_of(bins@) == snew);
                    assert(wf_bins(snew)) by {
                        assert(forall|j: int|
                            0 <= j < snew[binint].len() - 1 ==> snew[binint][j] == s[binint][j]);
                        assert(snew[binint].last() == cursor);
                    }
                    assert(blocks_in_range(snew, start, (cursor + sz) as u64)) by {
                        assert(forall|j: int|
                            0 <= j < snew[binint].len() - 1 ==> snew[binint][j] == s[binint][j]);
                        assert(snew[binint].last() == cursor);
                    }
                    lemma_total_push(s, binint, cursor, NUM_CLASSES as int);
                    if start % 8 == 0 && (end as int - cursor as int) >= 8 {
                        // the new cursor keeps its 8-alignment
                        lemma_pow2_divides(3, k as nat);
                        lemma_fundamental_div_mod(cursor as int, 8);
                        lemma_fundamental_div_mod(sz as int, 8);
                        lemma_fundamental_div_mod_converse(
                            cursor as int + sz as int,
                            8,
                            cursor as int / 8 + sz as int / 8,
                            0,
                        );
                    }
                }
            } else {
                proof {
                    if start % 8 == 0 && (end as int - cursor as int) >= 8 {
                        assert(false);
                    }
                }
            }
            cursor = cursor + sz;
        }
        Allocator { bins }
    }

    /// Allocation starting at class `bin`, with the walk of `alloc_model`.
    fn alloc_in_bin(&mut self, bin: usize, align: u64) -> (r: Option<u64>)
        requires
            old(self).wf(),
            align >= 1,
            bin <= NUM_CLASSES,
        ensures
            final(self).wf(),
            match alloc_model(old(self)@, bin as int, align) {
                Some(pr) => r == Some(pr.0) && final(self)@ == pr.1,
                None => r == None::<u64> && final(self)@ == old(self)@,
            },
        decreases NUM_CLASSES - bin,
    {
        if bin >= NUM_CLASSES {
            return None;
        }
        let ghost s0 = self@;
        proof {
            assert(self.bins@.len() == NUM_CLASSES);
            lemma_alloc_model_props(s0, bin as int, align);
        }
        let ghost bl0 = self.bins@;
        let found = self.bins[bin].remove_aligned(align);
        proof {
            lemma_views_update(bl0, bin as int, self.bins@[bin as int]);
        }
        match found {
            Some(a) => Some(a),
            None => {
                proof {
                    assert(self@ =~= s0);
                }
                let r = self.alloc_in_bin(bin + 1, align);
                match r {
                    None => None,
                    Some(p) => {
                        proof {
                            lemma_alloc_model_props(s0, bin as int + 1, align);
                            // the lower half is aligned to the parent class,
                            // so the whole parent block sits below 2^64
                            lemma_aligned_headroom(p, (bin + 4) as nat);
                            lemma_pow2_adds((bin + 3) as nat, 1);
                            lemma2_to64();
                            lemma_pow2_strictly_increases((bin + 3) as nat, (bin + 4) as nat);
                            lemma2_to64_rest();
                        }
                        let half = class_block_size(bin);
                        let upper = p + half;
                        let ghost bl1 = self.bins@;
                        self.bins[bin].push(upper);
                        proof {
                            lemma_views_update(bl1, bin as int, self.bins@[bin as int]);
                        }
                        Some(p)
                    },
                }
            },
        }
    }

    /// Deallocation starting at class `bin`, with the walk of
    /// `dealloc_model`.
    fn dealloc_in_bin(&mut self, addr: u64, bin: usize)
        requires
            old(self).wf(),
            bin <= NUM_CLASSES,
            bin < NUM_CLASSES ==> addr as int % class_size(bin as int) as int == 0,
        ensures
            final(self).wf(),
            final(self)@ == dealloc_model(old(self)@, addr, bin as int),
        decreases NUM_CLASSES - bin,
    {
        if bin >= NUM_CLASSES {
            return ;
        }
        let ghost s0 = self@;
        proof {
            assert(self.bins@.len() == NUM_CLASSES);
            lemma_buddy_props(addr, bin as int);
            lemma_dealloc_model_props(s0, addr, bin as int);
            lemma2_to64();
            lemma2_to64_rest();
        }
        let cs = class_block_size(bin);
        let buddy = if addr % (cs * 2) == 0 {
            addr + cs
        } else {
            addr - cs
        };
        proof {
            assert(buddy as int == buddy_addr(addr, bin as int));
        }
        let ghost bl0 = self.bins@;
        let present = self.bins[bin].remove_addr(buddy);
        proof {
            lemma_views_update(bl0, bin as int, self.bins@[bin as int]);
        }
        if present {
            let merged = if addr < buddy {
                addr
            } else {
                buddy
            };
            proof {
                let i = find_addr(s0[bin as int], buddy)->Some_0;
                crate::free_list::lemma_find_addr_some(s0[bin as int], buddy, i);
                lemma_wf_remove(s0, bin as int, i);
            }
            self.dealloc_in_bin(merged, bin + 1);
        } else {
            proof {
                assert(self@ =~= s0);
            }
            let ghost bl1 = self.bins@;
            self.bins[bin].push(addr);
            proof {
                lemma_views_update(bl1, bin as int, self.bins@[bin as int]);
            }
        }
    }

    /// Serves a request for `size` units at alignment `align`.
    ///
    /// The alignment must be a nonzero power of two and the size nonzero;
    /// any other request is refused as `Unsupported` with the bins left
    /// untouched. The size is rounded up to the next power of two (at least
    /// 8); when no bin can produce a fitting block the request is refused
    /// as `Exhausted`, again leaving the bins untouched. On success the
    /// returned address is a multiple both of `align` and of the block size
    /// of the request's class, and the bins change exactly as
    /// `alloc_model` describes.
    pub fn allocate(&mut self, size: u64, align: u64) -> (r: Result<u64, AllocError>)
        requires
            old(self).wf(),
        ensures
            final(self).wf(),
            !(size >= 1 && is_power_of_two(align)) ==> r == Err::<u64, AllocError>(
                AllocError::Unsupported,
            ) && final(self)@ == old(self)@,
            size >= 1 && is_power_of_two(align) ==> match alloc_model(
                old(self)@,
                size_class(size) as int,
                align,
            ) {
                Some(pr) => r == Ok::<u64, AllocError>(pr.0) && final(self)@ == pr.1 && pr.0 as int
                    % align as int == 0 && pr.0 as int % class_size(size_class(size) as int) as int
                    == 0,
                None => r == Err::<u64, AllocError>(AllocError::Exhausted { size, align })
                    && final(self)@ == old(self)@,
            },
    {
        if size == 0 || !check_power_of_two(align) {
            return Err(AllocError::Unsupported);
        }
        proof {
            assert(align >= 1);
        }
        let bin = find_size_class(size);
        let r = self.alloc_in_bin(bin, align);
        match r {
            Some(a) => {
                proof {
                    lemma_alloc_model_props(old(self)@, bin as int, align);
                }
                Ok(a)
            },
            None => Err(AllocError::Exhausted { size, align }),
        }
    }

    /// Returns the block at `addr` to the pool, merging it with its buddy
    /// whenever the buddy is free, repeatedly up the size classes.
    ///
    /// The caller must pass the very `size` and `align` it used to obtain
    /// the block, so the address is a multiple of its class's block size. A
    /// size whose class lies beyond the last bin is silently dropped, as is
    /// a merge that would reach past the last bin; `align` takes no part in
    /// the computation. The bins change exactly as `dealloc_model`
    /// describes.
    pub fn dealloc(&mut self, addr: u64, size: u64, _align: u64)
        requires
            old(self).wf(),
            size >= 1,
            size_class(size) < NUM_CLASSES ==> addr as int % class_size(
                size_class(size) as int,
            ) as int == 0,
        ensures
            final(self).wf(),
            final(self)@ == dealloc_model(old(self)@, addr, size_class(size) as int),
    {
        let bin = find_size_class(size);
        self.dealloc_in_bin(addr, bin);
    }
}

/// Facts about the buddy of an aligned class-`b` block: it is distinct,
/// equally aligned, within the address space, the relation is an
/// involution, and the lower block of the pair is aligned to the class
/// above.
pub proof fn lemma_buddy_props(addr: u64, b: int)
    requires
        0 <= b < NUM_CLASSES,
        addr as int % class_size(b) as int == 0,
    ensures
        0 <= buddy_addr(addr, b) <= u64::MAX,
        buddy_addr(addr, b) != addr as int,
        buddy_addr(addr, b) % class_size(b) as int == 0,
        buddy_addr(buddy_addr(addr, b) as u64, b) == addr as int,
        class_size(b + 1) == 2 * class_size(b),
        ({
            let m = if addr as int <= buddy_addr(addr, b) {
                addr as int
            } else {
                buddy_addr(addr, b)
            };
            m % class_size(b + 1) as int == 0
        }),
{
    let cs = class_size(b) as int;
    lemma_pow2_pos((b + 3) as nat);
    lemma_pow2_adds((b + 3) as nat, 1);
    lemma2_to64();
    lemma2_to64_rest();
    assert(class_size(b + 1) == 2 * class_size(b));
    if addr as int % (2 * cs) == 0 {
        lemma_aligned_headroom(addr, (b + 4) as nat);
        lemma_mod_multiples_vanish(1, addr as int, cs);
        lemma_fundamental_div_mod(addr as int, 2 * cs);
        let k = addr as int / (2 * cs);
        lemma_fundamental_div_mod_converse(addr as int + cs, 2 * cs, k, cs);
    } else {
        lemma_mod_double(addr as int, cs);
        assert(addr as int % (2 * cs) == cs);
        lemma_fundamental_div_mod(addr as int, 2 * cs);
        let k = addr as int / (2 * cs);
        lemma_div_pos_is_pos(addr as int, 2 * cs);
        assert((2 * cs) * k >= 0) by (nonlinear_arith)
            requires
                cs >= 1,
                k >= 0,
        ;
        lemma_fundamental_div_mod_converse(addr as int - cs, 2 * cs, k, 0);
        lemma_mod_multiples_vanish(-1, addr as int, cs);
    }
}

/// Removing one address from a bin keeps the bins well formed.
pub proof fn lemma_wf_remove(s: Seq<Seq<u64>>, b: int, i: int)
    requires
        wf_bins(s),
        0 <= b < NUM_CLASSES,
        0 <= i < s[b].len(),
    ensures
        wf_bins(s.update(b, s[b].remove(i))),
{
    let t = s.update(b, s[b].remove(i));
    assert forall|x: int, j: int|
        0 <= x < NUM_CLASSES && 0 <= j < t[x].len() implies #[trigger] t[x][j] as int % class_size(
        x,
    ) as int == 0 by {
        if x == b {
            if j < i {
                assert(t[x][j] == s[b][j]);
            } else {
                assert(t[x][j] == s[b][j + 1]);
            }
        }
    }
}

/// Facts about the deallocation walk: the bins stay well formed and classes
/// below the starting one are untouched.
pub proof fn lemma_dealloc_model_props(bins: Seq<Seq<u64>>, addr: u64, b: int)
    requires
        wf_bins(bins),
        0 <= b,
        b < NUM_CLASSES ==> addr as int % class_size(b) as int == 0,
    ensures
        wf_bins(dealloc_model(bins, addr, b)),
        forall|i: int| 0 <= i < b ==> dealloc_model(bins, addr, b)[i] == bins[i],
    decreases NUM_CLASSES - b,
{
    if 0 <= b < NUM_CLASSES {
        lemma_buddy_props(addr, b);
        let bud = buddy_addr(addr, b) as u64;
        match find_addr(bins[b], bud) {
            Some(i) => {
                crate::free_list::lemma_find_addr_some(bins[b], bud, i);
                lemma_wf_remove(bins, b, i);
                let merged = if addr as int <= buddy_addr(addr, b) {
                    addr
                } else {
                    bud
                };
                let updated = bins.update(b, bins[b].remove(i));
                lemma_dealloc_model_props(updated, merged, b + 1);
                let res = dealloc_model(bins, addr, b);
                assert(res == dealloc_model(updated, merged, b + 1));
                assert forall|x: int| 0 <= x < b implies res[x] == bins[x] by {
                    assert(res[x] == updated[x]);
                    assert(updated[x] == bins[x]);
                }
            },
            None => {
                let t = bins.update(b, bins[b].push(addr));
                assert(wf_bins(t)) by {
                    assert(forall|j: int| 0 <= j < t[b].len() - 1 ==> t[b][j] == bins[b][j]);
                    assert(t[b].last() == addr);
                }
            },
        }
    }
}

/// Facts about a successful allocation walk: the address it yields fits the
/// request's alignment, is aligned to its own class (so the block fits
/// below `2^64`), the bins stay well formed, and classes below the starting
/// one are untouched.
pub proof fn lemma_alloc_model_props(bins: Seq<Seq<u64>>, b: int, align: u64)
    requires
        wf_bins(bins),
        align >= 1,
        0 <= b,
    ensures
        match alloc_model(bins, b, align) {
            Some(pr) => {
                &&& wf_bins(pr.1)
                &&& b < NUM_CLASSES
                &&& pr.0 as int % class_size(b) as int == 0
                &&& pr.0 as int % align as int == 0
                &&& pr.0 + class_size(b) <= pow2(64)
                &&& forall|i: int| 0 <= i < b ==> pr.1[i] == bins[i]
            },
            None => true,
        },
    decreases NUM_CLASSES - b,
{
    if 0 <= b < NUM_CLASSES {
        match find_fit(bins[b], align) {
            Some(i) => {
                lemma_find_fit_some(bins[b], align, i);
                let a = bins[b][i];
                lemma_aligned_headroom(a, (b + 3) as nat);
                let s1 = bins.update(b, bins[b].remove(i));
                assert(wf_bins(s1)) by {
                    assert(forall|x: int, j: int|
                        0 <= x < NUM_CLASSES && 0 <= j < s1[x].len() ==> #[trigger] s1[x][j] as int
                            % class_size(x) as int == 0) by {
                        assert(forall|j: int|
                            0 <= j < s1[b].len() ==> s1[b][j] == bins[b][j] || s1[b][j] == bins[b][j
                                + 1]);
                    }
                }
            },
            None => {
                match alloc_model(bins, b + 1, align) {
                    Some(pr) => {
                        lemma_alloc_model_props(bins, b + 1, align);
                        let p = pr.0;
                        // p is aligned to class b + 1, hence to class b
                        lemma_pow2_adds((b + 3) as nat, 1);
                        lemma2_to64();
                        lemma_pow2_pos((b + 3) as nat);
                        lemma_pow2_divides((b + 3) as nat, (b + 4) as nat);
                        lemma_divides_transitive(
                            p as int,
                            class_size(b + 1) as int,
                            class_size(b) as int,
                        );
                        lemma_aligned_headroom(p, (b + 4) as nat);
                        lemma_pow2_strictly_increases((b + 3) as nat, (b + 4) as nat);
                        let upper = (p + class_size(b)) as u64;
                        assert(upper as int % class_size(b) as int == 0) by {
                            vstd::arithmetic::div_mod::lemma_mod_multiples_vanish(
                                1,
                                p as int,
                                class_size(b) as int,
                            );
                        }
                        let s2 = pr.1.update(b, pr.1[b].push(upper));
                        assert(wf_bins(s2)) by {
                            assert(forall|j: int|
                                0 <= j < s2[b].len() - 1 ==> s2[b][j] == pr.1[b][j]);
                            assert(s2[b].last() == upper);
                        }
                    },
                    None => {},
                }
            },
        }
    }
}

} // verus!
