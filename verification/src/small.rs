//! Short lists that are held without allocation while they are short.

use smallvec::SmallVec;
use vstd::prelude::*;

use crate::model::FreeRect;

verus! {

/// Free rectangles, sixteen of them without allocation.
#[verifier::external_body]
pub struct FreeList {
    items: SmallVec<[FreeRect; 16]>,
}

/// What the list holds, in order.
pub uninterp spec fn free_items(list: FreeList) -> Seq<FreeRect>;

impl View for FreeList {
    type V = Seq<FreeRect>;

    open spec fn view(&self) -> Seq<FreeRect> {
        free_items(*self)
    }
}

impl FreeList {
    /// `SmallVec::new`: the new list is empty.
    #[verifier::external_body]
    pub(crate) fn new() -> (r: FreeList)
        ensures
            free_items(r) == Seq::<FreeRect>::empty(),
    {
        FreeList { items: SmallVec::new() }
    }

    /// `SmallVec::push`: `value` goes to the end of the list.
    #[verifier::external_body]
    pub(crate) fn push(&mut self, value: FreeRect)
        ensures
            free_items(*final(self)) == free_items(*old(self)).push(value),
    {
        self.items.push(value)
    }

    /// `SmallVec::len`: the number of items.
    #[verifier::external_body]
    pub(crate) fn len(&self) -> (r: usize)
        ensures
            r == free_items(*self).len(),
    {
        self.items.len()
    }

    /// Indexing, which `SmallVec` has through its slice: item number `i`, without change to
    /// the list.
    #[verifier::external_body]
    pub(crate) fn at(&self, i: usize) -> (r: FreeRect)
        requires
            i < free_items(*self).len(),
        ensures
            r == free_items(*self)[i as int],
    {
        self.items[i]
    }

    /// `SmallVec::remove`: takes item number `i` out, those behind it move up.
    #[verifier::external_body]
    pub(crate) fn remove(&mut self, i: usize) -> (r: FreeRect)
        requires
            i < free_items(*old(self)).len(),
        ensures
            r == free_items(*old(self))[i as int],
            free_items(*final(self)) == free_items(*old(self)).remove(i as int),
    {
        self.items.remove(i)
    }

    /// `SmallVec::swap_remove`: takes item number `i` out, the last item takes its place.
    #[verifier::external_body]
    pub(crate) fn swap_remove(&mut self, i: usize) -> (r: FreeRect)
        requires
            i < free_items(*old(self)).len(),
        ensures
            r == free_items(*old(self))[i as int],
            free_items(*final(self)) == free_items(*old(self)).update(
                i as int,
                free_items(*old(self)).last(),
            ).drop_last(),
    {
        self.items.swap_remove(i)
    }

    /// `SmallVec::into_vec`: the items in order.
    #[verifier::external_body]
    pub(crate) fn into_vec(self) -> (r: Vec<FreeRect>)
        ensures
            r@ == free_items(self),
    {
        self.items.into_vec()
    }
}

/// What is left of a free rectangle after a placement.
#[verifier::external_body]
pub struct FreePair {
    items: SmallVec<[FreeRect; 2]>,
}

/// What the list holds, in order.
pub uninterp spec fn pair_items(list: FreePair) -> Seq<FreeRect>;

impl View for FreePair {
    type V = Seq<FreeRect>;

    open spec fn view(&self) -> Seq<FreeRect> {
        pair_items(*self)
    }
}

impl FreePair {
    /// `SmallVec::new`: the new list is empty.
    #[verifier::external_body]
    pub(crate) fn new() -> (r: FreePair)
        ensures
            pair_items(r) == Seq::<FreeRect>::empty(),
    {
        FreePair { items: SmallVec::new() }
    }

    /// `SmallVec::push`: `value` goes to the end of the list.
    #[verifier::external_body]
    pub(crate) fn push(&mut self, value: FreeRect)
        ensures
            pair_items(*final(self)) == pair_items(*old(self)).push(value),
    {
        self.items.push(value)
    }

    /// `SmallVec::len`: the number of items.
    #[verifier::external_body]
    pub(crate) fn len(&self) -> (r: usize)
        ensures
            r == pair_items(*self).len(),
    {
        self.items.len()
    }

    /// Indexing, which `SmallVec` has through its slice: item number `i`, without change to
    /// the list.
    #[verifier::external_body]
    pub(crate) fn at(&self, i: usize) -> (r: FreeRect)
        requires
            i < pair_items(*self).len(),
        ensures
            r == pair_items(*self)[i as int],
    {
        self.items[i]
    }
}

/// Places that a piece fits in: index of the free rectangle, width, height, whether rotated.
#[verifier::external_body]
pub struct Spots {
    items: SmallVec<[(usize, u32, u32, bool); 16]>,
}

/// What the list holds, in order.
pub uninterp spec fn spot_items(list: Spots) -> Seq<(usize, u32, u32, bool)>;

impl View for Spots {
    type V = Seq<(usize, u32, u32, bool)>;

    open spec fn view(&self) -> Seq<(usize, u32, u32, bool)> {
        spot_items(*self)
    }
}

impl Spots {
    /// `SmallVec::new`: the new list is empty.
    #[verifier::external_body]
    pub(crate) fn new() -> (r: Spots)
        ensures
            spot_items(r) == Seq::<(usize, u32, u32, bool)>::empty(),
    {
        Spots { items: SmallVec::new() }
    }

    /// `SmallVec::push`: `value` goes to the end of the list.
    #[verifier::external_body]
    pub(crate) fn push(&mut self, value: (usize, u32, u32, bool))
        ensures
            spot_items(*final(self)) == spot_items(*old(self)).push(value),
    {
        self.items.push(value)
    }

    /// `SmallVec::len`: the number of items.
    #[verifier::external_body]
    pub(crate) fn len(&self) -> (r: usize)
        ensures
            r == spot_items(*self).len(),
    {
        self.items.len()
    }

    /// Indexing, which `SmallVec` has through its slice: item number `i`, without change to
    /// the list.
    #[verifier::external_body]
    pub(crate) fn at(&self, i: usize) -> (r: (usize, u32, u32, bool))
        requires
            i < spot_items(*self).len(),
        ensures
            r == spot_items(*self)[i as int],
    {
        self.items[i]
    }
}

/// One free-leaf selector for each copy of a piece type.
#[verifier::external_body]
pub struct Selectors {
    items: SmallVec<[u32; 16]>,
}

/// What the list holds, in order.
pub uninterp spec fn selector_items(list: Selectors) -> Seq<u32>;

impl View for Selectors {
    type V = Seq<u32>;

    open spec fn view(&self) -> Seq<u32> {
        selector_items(*self)
    }
}

impl Selectors {
    /// `SmallVec::new`: the new list is empty.
    #[verifier::external_body]
    pub(crate) fn new() -> (r: Selectors)
        ensures
            selector_items(r) == Seq::<u32>::empty(),
    {
        Selectors { items: SmallVec::new() }
    }

    /// `SmallVec::push`: `value` goes to the end of the list.
    #[verifier::external_body]
    pub(crate) fn push(&mut self, value: u32)
        ensures
            selector_items(*final(self)) == selector_items(*old(self)).push(value),
    {
        self.items.push(value)
    }

    /// `SmallVec::len`: the number of items.
    #[verifier::external_body]
    pub(crate) fn len(&self) -> (r: usize)
        ensures
            r == selector_items(*self).len(),
    {
        self.items.len()
    }

    /// Indexing, which `SmallVec` has through its slice: item number `i`, without change to
    /// the list.
    #[verifier::external_body]
    pub(crate) fn at(&self, i: usize) -> (r: u32)
        requires
            i < selector_items(*self).len(),
        ensures
            r == selector_items(*self)[i as int],
    {
        self.items[i]
    }

    /// Assignment to an indexed item, which `SmallVec` has through its slice: item number
    /// `i` becomes `value`, the others stay.
    #[verifier::external_body]
    pub(crate) fn set(&mut self, i: usize, value: u32)
        requires
            i < selector_items(*old(self)).len(),
        ensures
            selector_items(*final(self)) == selector_items(*old(self)).update(i as int, value),
    {
        self.items[i] = value;
    }

    /// `SmallVec`'s `clone`: a list with the same items.
    #[verifier::external_body]
    pub(crate) fn copy(&self) -> (r: Selectors)
        ensures
            selector_items(r) == selector_items(*self),
    {
        Selectors { items: self.items.clone() }
    }

    /// The list of the given values.
    pub fn of(values: &Vec<u32>) -> (r: Selectors)
        ensures
            r@ == values@,
    {
        let mut out = Selectors::new();
        let mut k: usize = 0;
        assert(values@.take(0) =~= Seq::empty());
        while k < values.len()
            invariant
                k <= values.len(),
                out@ == values@.take(k as int),
            decreases values.len() - k,
        {
            out.push(values[k]);
            k += 1;
            assert(out@ =~= values@.take(k as int));
        }
        assert(values@.take(k as int) =~= values@);
        out
    }

    /// The values of the list.
    pub fn to_values(&self) -> (r: Vec<u32>)
        ensures
            r@ == self@,
    {
        let mut out: Vec<u32> = Vec::new();
        let mut k: usize = 0;
        while k < self.len()
            invariant
                k <= self@.len(),
                out@ == self@.take(k as int),
            decreases self@.len() - k,
        {
            out.push(self.at(k));
            k += 1;
            assert(out@ =~= self@.take(k as int));
        }
        assert(self@.take(k as int) =~= self@);
        out
    }
}

/// One cut direction flag for each copy of a piece type.
#[verifier::external_body]
pub struct Inverses {
    items: SmallVec<[bool; 16]>,
}

/// What the list holds, in order.
pub uninterp spec fn inverse_items(list: Inverses) -> Seq<bool>;

impl View for Inverses {
    type V = Seq<bool>;

    open spec fn view(&self) -> Seq<bool> {
        inverse_items(*self)
    }
}

impl Inverses {
    /// `SmallVec::new`: the new list is empty.
    #[verifier::external_body]
    pub(crate) fn new() -> (r: Inverses)
        ensures
            inverse_items(r) == Seq::<bool>::empty(),
    {
        Inverses { items: SmallVec::new() }
    }

    /// `SmallVec::push`: `value` goes to the end of the list.
    #[verifier::external_body]
    pub(crate) fn push(&mut self, value: bool)
        ensures
            inverse_items(*final(self)) == inverse_items(*old(self)).push(value),
    {
        self.items.push(value)
    }

    /// `SmallVec::len`: the number of items.
    #[verifier::external_body]
    pub(crate) fn len(&self) -> (r: usize)
        ensures
            r == inverse_items(*self).len(),
    {
        self.items.len()
    }

    /// Indexing, which `SmallVec` has through its slice: item number `i`, without change to
    /// the list.
    #[verifier::external_body]
    pub(crate) fn at(&self, i: usize) -> (r: bool)
        requires
            i < inverse_items(*self).len(),
        ensures
            r == inverse_items(*self)[i as int],
    {
        self.items[i]
    }

    /// Assignment to an indexed item, which `SmallVec` has through its slice: item number
    /// `i` becomes `value`, the others stay.
    #[verifier::external_body]
    pub(crate) fn set(&mut self, i: usize, value: bool)
        requires
            i < inverse_items(*old(self)).len(),
        ensures
            inverse_items(*final(self)) == inverse_items(*old(self)).update(i as int, value),
    {
        self.items[i] = value;
    }

    /// `SmallVec`'s `clone`: a list with the same items.
    #[verifier::external_body]
    pub(crate) fn copy(&self) -> (r: Inverses)
        ensures
            inverse_items(r) == inverse_items(*self),
    {
        Inverses { items: self.items.clone() }
    }

    /// The list of the given values.
    pub fn of(values: &Vec<bool>) -> (r: Inverses)
        ensures
            r@ == values@,
    {
        let mut out = Inverses::new();
        let mut k: usize = 0;
        assert(values@.take(0) =~= Seq::empty());
        while k < values.len()
            invariant
                k <= values.len(),
                out@ == values@.take(k as int),
            decreases values.len() - k,
        {
            out.push(values[k]);
            k += 1;
            assert(out@ =~= values@.take(k as int));
        }
        assert(values@.take(k as int) =~= values@);
        out
    }

    /// The values of the list.
    pub fn to_values(&self) -> (r: Vec<bool>)
        ensures
            r@ == self@,
    {
        let mut out: Vec<bool> = Vec::new();
        let mut k: usize = 0;
        while k < self.len()
            invariant
                k <= self@.len(),
                out@ == self@.take(k as int),
            decreases self@.len() - k,
        {
            out.push(self.at(k));
            k += 1;
            assert(out@ =~= self@.take(k as int));
        }
        assert(self@.take(k as int) =~= self@);
        out
    }
}

} // verus!
