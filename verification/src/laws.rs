//! The characteristic buddy-system laws, proved over the allocation and
//! deallocation models of [`crate::allocator`].

use vstd::prelude::*;
use vstd::arithmetic::power2::{lemma_pow2_adds, lemma_pow2_pos, lemma2_to64, lemma2_to64_rest};
use crate::arith::{class_size, is_power_of_two, lemma_divides_transitive, size_class, NUM_CLASSES};
use crate::allocator::{
    alloc_model, blocks_disjoint, buddy_addr, dealloc_model, free_blocks_avoid,
    lemma_alloc_model_props, lemma_buddy_props, lemma_dealloc_model_props, lemma_wf_remove,
    no_buddies, pairwise_disjoint, wf_bins,
};
use crate::free_list::{
    find_addr, find_fit, lemma_find_addr_contains, lemma_find_addr_none, lemma_find_addr_some,
    lemma_find_fit_some,
};

verus! {

/// Round trip, LIFO reuse: allocating a block, freeing it with the same
/// class, and allocating with the same request again yields the very same
/// address — and leaves the bins exactly as the first allocation did.
///
/// The bins must be free of simultaneously free buddy pairs, as the region
/// initializer leaves them and the deallocation walk keeps them.
pub proof fn lemma_round_trip(bins: Seq<Seq<u64>>, b: int, align: u64)
    requires
        wf_bins(bins),
        no_buddies(bins),
        align >= 1,
        0 <= b,
        alloc_model(bins, b, align) is Some,
    ensures
        ({
            let pr = alloc_model(bins, b, align)->Some_0;
            alloc_model(dealloc_model(pr.1, pr.0, b), b, align) == Some(pr)
        }),
    decreases NUM_CLASSES - b,
{
    lemma_alloc_model_props(bins, b, align);
    let pr = alloc_model(bins, b, align)->Some_0;
    let a = pr.0;
    let s1 = pr.1;
    lemma_buddy_props(a, b);
    lemma_pow2_adds((b + 3) as nat, 1);
    lemma2_to64();
    lemma2_to64_rest();
    match find_fit(bins[b], align) {
        Some(i) => {
            // the block came straight out of bin b; its buddy was not
            // free there, so freeing pushes it back at the head, where
            // the next fitting scan picks it up first
            lemma_find_fit_some(bins[b], align, i);
            let bud = buddy_addr(a, b) as u64;
            assert forall|j: int| 0 <= j < s1[b].len() implies s1[b][j] != bud by {
                if j < i {
                    assert(s1[b][j] == bins[b][j]);
                } else {
                    assert(s1[b][j] == bins[b][j + 1]);
                }
            }
            lemma_find_addr_none(s1[b], bud);
            let s2 = dealloc_model(s1, a, b);
            assert(s2 == s1.update(b, s1[b].push(a)));
            assert(s2[b].last() == a);
            let last = s2[b].len() - 1;
            assert(find_fit(s2[b], align) == Some(last));
            assert(s2[b].remove(last) =~= s1[b]);
            assert(s2.update(b, s2[b].remove(last)) =~= s1);
        },
        None => {
            // the block is the lower half of one carved from the class
            // above; freeing finds the upper half at the head of bin b,
            // merges, and hands the parent back to the class above
            let inner = alloc_model(bins, b + 1, align)->Some_0;
            let p = inner.0;
            let sp = inner.1;
            lemma_alloc_model_props(bins, b + 1, align);
            let upper = (p + class_size(b)) as u64;
            assert(s1 == sp.update(b, sp[b].push(upper)));
            assert(buddy_addr(a, b) == a + class_size(b));
            assert(upper as int == buddy_addr(a, b));
            assert(s1[b].last() == upper);
            let last = s1[b].len() - 1;
            assert(find_addr(s1[b], upper) == Some(last));
            assert(s1[b].remove(last) =~= sp[b]);
            assert(s1.update(b, s1[b].remove(last)) =~= sp);
            assert(dealloc_model(s1, a, b) == dealloc_model(sp, a, b + 1));
            lemma_round_trip(bins, b + 1, align);
            let d = dealloc_model(sp, a, b + 1);
            lemma_dealloc_model_props(sp, a, b + 1);
            assert(d[b] == bins[b]);
            lemma_find_fit_congruent(bins[b], d[b], align);
            assert(alloc_model(d, b + 1, align) == Some((a, sp)));
            assert(alloc_model(d, b, align) == Some((a, sp.update(b, sp[b].push(upper)))));
        },
    }
}

/// Round trip in terms of a request's size: the class the allocator uses
/// for `size` is `size_class(size)`, so a successful allocation of
/// `(size, align)`, freed with the same pair, is served again identically.
pub proof fn lemma_round_trip_request(bins: Seq<Seq<u64>>, size: u64, align: u64)
    requires
        wf_bins(bins),
        no_buddies(bins),
        size >= 1,
        is_power_of_two(align),
        alloc_model(bins, size_class(size) as int, align) is Some,
    ensures
        ({
            let pr = alloc_model(bins, size_class(size) as int, align)->Some_0;
            alloc_model(dealloc_model(pr.1, pr.0, size_class(size) as int), size_class(size) as int, align)
                == Some(pr)
        }),
{
    assert(align >= 1);
    lemma_round_trip(bins, size_class(size) as int, align);
}

/// `find_fit` agrees on equal sequences.
proof fn lemma_find_fit_congruent(s: Seq<u64>, t: Seq<u64>, align: u64)
    requires
        s == t,
    ensures
        find_fit(s, align) == find_fit(t, align),
{
}

/// Buddy coalescing: freeing a class-`b` block and then its buddy — in
/// either order — is exactly freeing the merged block one class up. When
/// the merged block's own buddy is not free either, that lands the merged
/// block in bin `b + 1`, and an allocation of the doubled class (at any
/// alignment its block size covers) takes the merged block straight from
/// that bin, returning the bins to where they started.
pub proof fn lemma_buddy_coalescing(bins: Seq<Seq<u64>>, a: u64, b: int, align: u64)
    requires
        wf_bins(bins),
        0 <= b < NUM_CLASSES - 1,
        a as int % class_size(b) as int == 0,
        !bins[b].contains(a),
        !bins[b].contains((buddy_addr(a, b) as u64)),
        ({
            let u = buddy_addr(a, b) as u64;
            let m = if a <= u {
                a
            } else {
                u
            };
            !bins[b + 1].contains((buddy_addr(m, b + 1) as u64))
        }),
        align >= 1,
        class_size(b + 1) as int % align as int == 0,
    ensures
        ({
            let u = buddy_addr(a, b) as u64;
            let m = if a <= u {
                a
            } else {
                u
            };
            &&& dealloc_model(dealloc_model(bins, a, b), u, b) == dealloc_model(bins, m, b + 1)
            &&& dealloc_model(dealloc_model(bins, u, b), a, b) == dealloc_model(bins, m, b + 1)
            &&& dealloc_model(bins, m, b + 1) == bins.update(b + 1, bins[b + 1].push(m))
            &&& alloc_model(dealloc_model(bins, m, b + 1), b + 1, align) == Some((m, bins))
        }),
{
    lemma_buddy_props(a, b);
    let u = buddy_addr(a, b) as u64;
    lemma_buddy_props(u, b);
    let m = if a <= u {
        a
    } else {
        u
    };
    lemma_pow2_adds((b + 3) as nat, 1);
    lemma_pow2_adds((b + 4) as nat, 1);
    lemma2_to64();
    lemma_pow2_pos((b + 3) as nat);
    lemma_pow2_pos((b + 4) as nat);
    lemma_coalesce_one_order(bins, a, b);
    lemma_coalesce_one_order(bins, u, b);
    assert(buddy_addr(u, b) == a as int);
    // freeing the merged block: its own buddy is not free, so it simply
    // joins bin b + 1
    assert(m as int % class_size(b + 1) as int == 0);
    lemma_buddy_props(m, b + 1);
    let w = buddy_addr(m, b + 1) as u64;
    assert forall|j: int| 0 <= j < bins[b + 1].len() implies #[trigger] bins[b + 1][j] != w by {
        if bins[b + 1][j] == w {
            assert(bins[b + 1].contains(w));
        }
    }
    lemma_find_addr_none(bins[b + 1], w);
    let s3 = bins.update(b + 1, bins[b + 1].push(m));
    assert(dealloc_model(bins, m, b + 1) == s3);
    // the doubled-class allocation finds the merged block at the head
    lemma_divides_transitive(m as int, class_size(b + 1) as int, align as int);
    assert(s3[b + 1].last() == m);
    let last = s3[b + 1].len() - 1;
    assert(find_fit(s3[b + 1], align) == Some(last));
    assert(s3[b + 1].remove(last) =~= bins[b + 1]);
    assert(s3.update(b + 1, s3[b + 1].remove(last)) =~= bins);
}

/// One order of the coalescing pair: freeing `a`, then its buddy, merges
/// into the lower of the two at the class above.
proof fn lemma_coalesce_one_order(bins: Seq<Seq<u64>>, a: u64, b: int)
    requires
        wf_bins(bins),
        0 <= b < NUM_CLASSES - 1,
        a as int % class_size(b) as int == 0,
        !bins[b].contains(a),
        !bins[b].contains((buddy_addr(a, b) as u64)),
    ensures
        ({
            let u = buddy_addr(a, b) as u64;
            let m = if a <= u {
                a
            } else {
                u
            };
            dealloc_model(dealloc_model(bins, a, b), u, b) == dealloc_model(bins, m, b + 1)
        }),
{
    lemma_buddy_props(a, b);
    let u = buddy_addr(a, b) as u64;
    lemma_buddy_props(u, b);
    assert(buddy_addr(u, b) == a as int);
    let m = if a <= u {
        a
    } else {
        u
    };
    // freeing a: its buddy is not in bin b, so a joins the bin
    assert forall|j: int| 0 <= j < bins[b].len() implies #[trigger] bins[b][j] != u by {
        if bins[b][j] == u {
            assert(bins[b].contains(u));
        }
    }
    lemma_find_addr_none(bins[b], u);
    let s1 = bins.update(b, bins[b].push(a));
    assert(dealloc_model(bins, a, b) == s1);
    // freeing u: its buddy a now sits at the head of bin b; they merge
    assert(s1[b].last() == a);
    let last = s1[b].len() - 1;
    assert(find_addr(s1[b], a) == Some(last));
    assert(s1[b].remove(last) =~= bins[b]);
    assert(s1.update(b, s1[b].remove(last)) =~= bins);
    assert(dealloc_model(s1, u, b) == dealloc_model(bins, m, b + 1));
}

/// Removing one free block keeps the free blocks pairwise disjoint and
/// free of buddy pairs.
proof fn lemma_remove_keeps_invariants(s: Seq<Seq<u64>>, b: int, k: int)
    requires
        s.len() == NUM_CLASSES,
        0 <= b < NUM_CLASSES,
        0 <= k < s[b].len(),
        pairwise_disjoint(s),
        no_buddies(s),
    ensures
        pairwise_disjoint(s.update(b, s[b].remove(k))),
        no_buddies(s.update(b, s[b].remove(k))),
{
    let t = s.update(b, s[b].remove(k));
    assert(t[b].len() == s[b].len() - 1);
    assert(forall|j: int| 0 <= j < k ==> #[trigger] t[b][j] == s[b][j]);
    assert(forall|j: int| k <= j < t[b].len() ==> #[trigger] t[b][j] == s[b][j + 1]);
}

/// The allocation engine keeps the pool's invariants: the free blocks stay
/// pairwise disjoint, no two buddies are simultaneously free, and the block
/// it hands out overlaps no free block.
pub proof fn lemma_alloc_keeps_invariants(bins: Seq<Seq<u64>>, b: int, align: u64)
    requires
        wf_bins(bins),
        pairwise_disjoint(bins),
        no_buddies(bins),
        0 <= b,
        align >= 1,
    ensures
        match alloc_model(bins, b, align) {
            Some(pr) => {
                &&& pairwise_disjoint(pr.1)
                &&& no_buddies(pr.1)
                &&& free_blocks_avoid(pr.1, pr.0, class_size(b))
            },
            None => true,
        },
    decreases NUM_CLASSES - b,
{
    lemma_alloc_model_props(bins, b, align);
    if 0 <= b < NUM_CLASSES {
        lemma_pow2_adds((b + 3) as nat, 1);
        lemma2_to64();
        lemma_pow2_pos((b + 3) as nat);
        match find_fit(bins[b], align) {
            Some(i) => {
                lemma_find_fit_some(bins[b], align, i);
                lemma_remove_keeps_invariants(bins, b, i);
                let a = bins[b][i];
                let s1 = bins.update(b, bins[b].remove(i));
                assert forall|i2: int, j2: int|
                    0 <= i2 < NUM_CLASSES && 0 <= j2 < s1[i2].len() implies blocks_disjoint(
                    #[trigger] s1[i2][j2],
                    class_size(i2),
                    a,
                    class_size(b),
                ) by {
                    if i2 == b {
                        if j2 < i {
                            assert(s1[i2][j2] == bins[b][j2]);
                        } else {
                            assert(s1[i2][j2] == bins[b][j2 + 1]);
                        }
                    }
                }
            },
            None => {
                match alloc_model(bins, b + 1, align) {
                    Some(pr) => {
                        lemma_alloc_keeps_invariants(bins, b + 1, align);
                        lemma_alloc_model_props(bins, b + 1, align);
                        let p = pr.0;
                        let sp = pr.1;
                        let cs = class_size(b) as int;
                        let upper = (p + class_size(b)) as u64;
                        lemma_buddy_props(p, b);
                        assert(buddy_addr(p, b) == p + cs);
                        assert(buddy_addr(upper, b) == p as int);
                        let s2 = sp.update(b, sp[b].push(upper));
                        let last = sp[b].len() as int;
                        assert(forall|j: int| 0 <= j < last ==> s2[b][j] == sp[b][j]);
                        assert(s2[b][last] == upper);
                        // the upper half and the returned lower half both sit
                        // inside the parent block, which no free block meets
                        assert forall|i1: int, j1: int, i2: int, j2: int|
                            #![trigger s2[i1][j1], s2[i2][j2]]
                            0 <= i1 < NUM_CLASSES && 0 <= j1 < s2[i1].len() && 0 <= i2
                                < NUM_CLASSES && 0 <= j2 < s2[i2].len() && !(i1 == i2 && j1
                                == j2) implies blocks_disjoint(
                            s2[i1][j1],
                            class_size(i1),
                            s2[i2][j2],
                            class_size(i2),
                        ) by {
                            if i1 == b && j1 == last && !(i2 == b && j2 == last) {
                                assert(blocks_disjoint(
                                    sp[i2][j2],
                                    class_size(i2),
                                    p,
                                    class_size(b + 1),
                                ));
                            } else if i2 == b && j2 == last && !(i1 == b && j1 == last) {
                                assert(blocks_disjoint(
                                    sp[i1][j1],
                                    class_size(i1),
                                    p,
                                    class_size(b + 1),
                                ));
                            }
                        }
                        assert(no_buddies(s2)) by {
                            assert forall|i1: int, j1: int, i2: int, j2: int|
                                #![trigger s2[i1][j1], s2[i2][j2]]
                                0 <= i1 < NUM_CLASSES && 0 <= j1 < s2[i1].len() && i1 == i2 && 0
                                    <= j2 < s2[i2].len() implies s2[i2][j2] as int != buddy_addr(
                                s2[i1][j1],
                                i1,
                            ) by {
                                if i1 == b {
                                    if j1 == last && j2 != last {
                                        // the new block's buddy is the handed-out
                                        // lower half, which no free block matches
                                        if sp[b][j2] as int == p as int {
                                            assert(blocks_disjoint(
                                                sp[b][j2],
                                                class_size(b),
                                                p,
                                                class_size(b + 1),
                                            ));
                                            assert(false);
                                        }
                                    } else if j2 == last && j1 != last {
                                        assert(sp[b][j1] as int % class_size(b) as int == 0);
                                        lemma_buddy_props(sp[b][j1], b);
                                        if upper as int == buddy_addr(sp[b][j1], b) {
                                            assert(buddy_addr(upper, b) == sp[b][j1] as int);
                                            assert(blocks_disjoint(
                                                sp[b][j1],
                                                class_size(b),
                                                p,
                                                class_size(b + 1),
                                            ));
                                            assert(false);
                                        }
                                    }
                                }
                            }
                        }
                        assert forall|i2: int, j2: int|
                            0 <= i2 < NUM_CLASSES && 0 <= j2 < s2[i2].len() implies blocks_disjoint(
                            #[trigger] s2[i2][j2],
                            class_size(i2),
                            p,
                            class_size(b),
                        ) by {
                            if !(i2 == b && j2 == last) {
                                assert(blocks_disjoint(
                                    sp[i2][j2],
                                    class_size(i2),
                                    p,
                                    class_size(b + 1),
                                ));
                            }
                        }
                    },
                    None => {},
                }
            },
        }
    }
}

/// The deallocation engine keeps the pool's invariants when handed a block
/// that is owned outside the pool: the free blocks stay pairwise disjoint
/// and no two buddies are simultaneously free — the merge step is exactly
/// what maintains the latter.
pub proof fn lemma_dealloc_keeps_invariants(bins: Seq<Seq<u64>>, addr: u64, b: int)
    requires
        wf_bins(bins),
        pairwise_disjoint(bins),
        no_buddies(bins),
        0 <= b,
        b < NUM_CLASSES ==> addr as int % class_size(b) as int == 0,
        b < NUM_CLASSES ==> free_blocks_avoid(bins, addr, class_size(b)),
    ensures
        pairwise_disjoint(dealloc_model(bins, addr, b)),
        no_buddies(dealloc_model(bins, addr, b)),
    decreases NUM_CLASSES - b,
{
    if 0 <= b < NUM_CLASSES {
        lemma_buddy_props(addr, b);
        lemma_pow2_adds((b + 3) as nat, 1);
        lemma2_to64();
        lemma_pow2_pos((b + 3) as nat);
        let cs = class_size(b) as int;
        let bud = buddy_addr(addr, b) as u64;
        lemma_find_addr_contains(bins[b], bud);
        match find_addr(bins[b], bud) {
            None => {
                let t = bins.update(b, bins[b].push(addr));
                let last = bins[b].len() as int;
                assert(forall|j: int| 0 <= j < last ==> t[b][j] == bins[b][j]);
                assert(t[b][last] == addr);
                assert forall|i1: int, j1: int, i2: int, j2: int|
                    #![trigger t[i1][j1], t[i2][j2]]
                    0 <= i1 < NUM_CLASSES && 0 <= j1 < t[i1].len() && 0 <= i2 < NUM_CLASSES && 0
                        <= j2 < t[i2].len() && !(i1 == i2 && j1 == j2) implies blocks_disjoint(
                    t[i1][j1],
                    class_size(i1),
                    t[i2][j2],
                    class_size(i2),
                ) by {
                    if i1 == b && j1 == last {
                        assert(blocks_disjoint(bins[i2][j2], class_size(i2), addr, class_size(b)));
                    } else if i2 == b && j2 == last {
                        assert(blocks_disjoint(bins[i1][j1], class_size(i1), addr, class_size(b)));
                    }
                }
                assert(no_buddies(t)) by {
                    assert forall|i1: int, j1: int, i2: int, j2: int|
                        #![trigger t[i1][j1], t[i2][j2]]
                        0 <= i1 < NUM_CLASSES && 0 <= j1 < t[i1].len() && i1 == i2 && 0 <= j2
                            < t[i2].len() implies t[i2][j2] as int != buddy_addr(t[i1][j1], i1) by {
                        if i1 == b {
                            if j1 == last && j2 != last {
                                // the buddy was just searched for and is absent
                                if bins[b][j2] == bud {
                                    assert(bins[b].contains(bud));
                                    assert(false);
                                }
                            } else if j2 == last && j1 != last {
                                assert(bins[b][j1] as int % class_size(b) as int == 0);
                                lemma_buddy_props(bins[b][j1], b);
                                if addr as int == buddy_addr(bins[b][j1], b) {
                                    assert(buddy_addr(addr, b) == bins[b][j1] as int);
                                    assert(bins[b].contains(bud));
                                    assert(false);
                                }
                            }
                        }
                    }
                }
            },
            Some(i) => {
                lemma_find_addr_some(bins[b], bud, i);
                lemma_remove_keeps_invariants(bins, b, i);
                lemma_wf_remove(bins, b, i);
                let s1 = bins.update(b, bins[b].remove(i));
                let m = if addr as int <= buddy_addr(addr, b) {
                    addr
                } else {
                    bud
                };
                // the merged block is the union of the freed block and its
                // buddy, and every remaining free block avoids both halves
                assert forall|i2: int, j2: int|
                    0 <= i2 < NUM_CLASSES && 0 <= j2 < s1[i2].len() implies blocks_disjoint(
                    #[trigger] s1[i2][j2],
                    class_size(i2),
                    m,
                    class_size(b + 1),
                ) by {
                    let j2s = if i2 == b && j2 >= i {
                        j2 + 1
                    } else {
                        j2
                    };
                    assert(s1[i2][j2] == bins[i2][j2s]);
                    assert(blocks_disjoint(bins[i2][j2s], class_size(i2), addr, class_size(b)));
                    assert(!(i2 == b && j2s == i) ==> blocks_disjoint(
                        bins[i2][j2s],
                        class_size(i2),
                        bins[b][i],
                        class_size(b),
                    ));
                    lemma_pow2_pos((i2 + 3) as nat);
                }
                lemma_dealloc_keeps_invariants(s1, m, b + 1);
            },
        }
    }
}

} // verus!
