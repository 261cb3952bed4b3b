//! The free list of one size class: a LIFO list of the starting addresses of
//! the free blocks in that class.
//!
//! The head of the list is the most recently pushed address; a scan visits
//! the list from the head. On the freestanding target the links of this list
//! live inside the free blocks themselves; here the list owns its storage,
//! with the head kept at the end of the backing vector so that push and pop
//! stay O(1).

use vstd::prelude::*;

verus! {

/// Index (from the start of the sequence) of the first element, scanning
/// from the head, that is a multiple of `align`; `None` when no element is.
pub open spec fn find_fit(s: Seq<u64>, align: u64) -> Option<int>
    recommends
        align >= 1,
    decreases s.len(),
{
    if s.len() == 0 {
        None
    } else if s.last() as int % align as int == 0 {
        Some(s.len() - 1)
    } else {
        find_fit(s.drop_last(), align)
    }
}

/// Index (from the start of the sequence) of the first element, scanning
/// from the head, that equals `addr`; `None` when `addr` is not present.
pub open spec fn find_addr(s: Seq<u64>, addr: u64) -> Option<int>
    decreases s.len(),
{
    if s.len() == 0 {
        None
    } else if s.last() == addr {
        Some(s.len() - 1)
    } else {
        find_addr(s.drop_last(), addr)
    }
}

/// What a successful `find_fit` returns: a valid index of an aligned
/// element, with nothing aligned nearer the head.
pub proof fn lemma_find_fit_some(s: Seq<u64>, align: u64, i: int)
    requires
        align >= 1,
        find_fit(s, align) == Some(i),
    ensures
        0 <= i < s.len(),
        s[i] as int % align as int == 0,
        forall|j: int| i < j < s.len() ==> s[j] as int % align as int != 0,
    decreases s.len(),
{
    if s.len() > 0 && s.last() as int % align as int != 0 {
        lemma_find_fit_some(s.drop_last(), align, i);
        assert(forall|j: int| 0 <= j < s.len() - 1 ==> s[j] == s.drop_last()[j]);
    }
}

/// The converse: an aligned element with nothing aligned nearer the head is
/// what `find_fit` returns.
pub proof fn lemma_find_fit_at(s: Seq<u64>, align: u64, i: int)
    requires
        align >= 1,
        0 <= i < s.len(),
        s[i] as int % align as int == 0,
        forall|j: int| i < j < s.len() ==> s[j] as int % align as int != 0,
    ensures
        find_fit(s, align) == Some(i),
    decreases s.len(),
{
    if i < s.len() - 1 {
        lemma_find_fit_at(s.drop_last(), align, i);
    }
}

/// When no element is aligned, `find_fit` reports so.
pub proof fn lemma_find_fit_none(s: Seq<u64>, align: u64)
    requires
        align >= 1,
        forall|j: int| 0 <= j < s.len() ==> s[j] as int % align as int != 0,
    ensures
        find_fit(s, align) == None::<int>,
    decreases s.len(),
{
    if s.len() > 0 {
        lemma_find_fit_none(s.drop_last(), align);
    }
}

/// What a successful `find_addr` returns: a valid index holding `addr`,
/// with no other copy of `addr` nearer the head.
pub proof fn lemma_find_addr_some(s: Seq<u64>, addr: u64, i: int)
    requires
        find_addr(s, addr) == Some(i),
    ensures
        0 <= i < s.len(),
        s[i] == addr,
        forall|j: int| i < j < s.len() ==> s[j] != addr,
    decreases s.len(),
{
    if s.len() > 0 && s.last() != addr {
        lemma_find_addr_some(s.drop_last(), addr, i);
        assert(forall|j: int| 0 <= j < s.len() - 1 ==> s[j] == s.drop_last()[j]);
    }
}

/// The converse: the occurrence of `addr` nearest the head is what
/// `find_addr` returns.
pub proof fn lemma_find_addr_at(s: Seq<u64>, addr: u64, i: int)
    requires
        0 <= i < s.len(),
        s[i] == addr,
        forall|j: int| i < j < s.len() ==> s[j] != addr,
    ensures
        find_addr(s, addr) == Some(i),
    decreases s.len(),
{
    if i < s.len() - 1 {
        lemma_find_addr_at(s.drop_last(), addr, i);
    }
}

/// When `addr` is absent, `find_addr` reports so.
pub proof fn lemma_find_addr_none(s: Seq<u64>, addr: u64)
    requires
        forall|j: int| 0 <= j < s.len() ==> s[j] != addr,
    ensures
        find_addr(s, addr) == None::<int>,
    decreases s.len(),
{
    if s.len() > 0 {
        lemma_find_addr_none(s.drop_last(), addr);
    }
}

/// `find_addr` succeeds exactly on the sequences that contain the address.
pub proof fn lemma_find_addr_contains(s: Seq<u64>, addr: u64)
    ensures
        (find_addr(s, addr) is Some) == s.contains(addr),
    decreases s.len(),
{
    if s.len() > 0 {
        lemma_find_addr_contains(s.drop_last(), addr);
        assert(forall|j: int| 0 <= j < s.len() - 1 ==> s[j] == s.drop_last()[j]);
        if s.last() != addr && s.contains(addr) {
            let j = choose|j: int| 0 <= j < s.len() && s[j] == addr;
            assert(s.drop_last()[j] == addr);
            assert(s.drop_last().contains(addr));
        }
        if s.drop_last().contains(addr) {
            let j = choose|j: int| 0 <= j < s.len() - 1 && s.drop_last()[j] == addr;
            assert(s[j] == addr);
        }
    }
}

/// The free list of one size class. Its view is the sequence of free block
/// addresses, oldest first; the head of the list is the last element.
pub struct FreeList {
    items: Vec<u64>,
}

impl View for FreeList {
    type V = Seq<u64>;

    closed spec fn view(&self) -> Seq<u64> {
        self.items@
    }
}

impl FreeList {
    /// An empty free list.
    pub fn new() -> (l: FreeList)
        ensures
            l@ == Seq::<u64>::empty(),
    {
        FreeList { items: Vec::new() }
    }

    /// Number of free blocks on the list.
    pub fn len(&self) -> (n: usize)
        ensures
            n == self@.len(),
    {
        self.items.len()
    }

    /// Inserts `addr` at the head.
    pub fn push(&mut self, addr: u64)
        ensures
            final(self)@ == old(self)@.push(addr),
    {
        self.items.push(addr);
    }

    /// Removes and returns the head address, or `None` when the list is
    /// empty.
    pub fn pop(&mut self) -> (r: Option<u64>)
        ensures
            old(self)@.len() == 0 ==> r == None::<u64> && final(self)@ == old(self)@,
            old(self)@.len() > 0 ==> r == Some(old(self)@.last()) && final(self)@ == old(self)@.drop_last(),
    {
        self.items.pop()
    }

    /// Scans from the head for the first address that is a multiple of
    /// `align`, removing and returning it.
    pub fn remove_aligned(&mut self, align: u64) -> (r: Option<u64>)
        requires
            align >= 1,
        ensures
            match find_fit(old(self)@, align) {
                Some(i) => r == Some(old(self)@[i]) && final(self)@ == old(self)@.remove(i),
                None => r == None::<u64> && final(self)@ == old(self)@,
            },
    {
        let mut i: usize = self.items.len();
        while i > 0
            invariant
                self@ == old(self)@,
                i <= self.items.len(),
                forall|j: int| i <= j < self@.len() ==> self@[j] as int % align as int != 0,
                align >= 1,
            decreases i,
        {
            i = i - 1;
            if self.items[i] % align == 0 {
                proof {
                    lemma_find_fit_at(self@, align, i as int);
                }
                let v = self.items.remove(i);
                return Some(v);
            }
        }
        proof {
            lemma_find_fit_none(self@, align);
        }
        None
    }

    /// Scans from the head for the first occurrence of `addr`, removing it;
    /// reports whether it was present.
    pub fn remove_addr(&mut self, addr: u64) -> (r: bool)
        ensures
            match find_addr(old(self)@, addr) {
                Some(i) => r && final(self)@ == old(self)@.remove(i),
                None => !r && final(self)@ == old(self)@,
            },
    {
        let mut i: usize = self.items.len();
        while i > 0
            invariant
                self@ == old(self)@,
                i <= self.items.len(),
                forall|j: int| i <= j < self@.len() ==> self@[j] != addr,
            decreases i,
        {
            i = i - 1;
            if self.items[i] == addr {
                proof {
                    lemma_find_addr_at(self@, addr, i as int);
                }
                self.items.remove(i);
                return true;
            }
        }
        proof {
            lemma_find_addr_none(self@, addr);
        }
        false
    }
}

} // verus!
