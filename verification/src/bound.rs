//! Binary searches over sorted slices: the first index at or above an
//! item (`lower_bound`) and the first index strictly above it
//! (`upper_bound`), plus geometric-expansion variants that are cheap
//! when the item sits near one end.

use core::cmp::Ordering;
use vstd::prelude::*;
use vstd::std_specs::cmp::PartialOrdSpec;

verus! {

/// Whether one value compares strictly below another.
pub open spec fn lt_at<T: PartialOrd + PartialOrdSpec>(a: T, b: T) -> bool {
    a.partial_cmp_spec(&b) == Some(Ordering::Less)
}

/// Whether one value compares at or below another.
pub open spec fn le_at<T: PartialOrd + PartialOrdSpec>(a: T, b: T) -> bool {
    a.partial_cmp_spec(&b) matches Some(Ordering::Less | Ordering::Equal)
}

/// The positions strictly below `item` form a prefix of `s`.
pub open spec fn lower_closed_at<T: PartialOrd + PartialOrdSpec>(s: Seq<T>, item: T) -> bool {
    forall|i: int, j: int|
        0 <= i <= j < s.len() && lt_at(#[trigger] s[j], item) ==> lt_at(#[trigger] s[i], item)
}

/// The positions at or below `item` form a prefix of `s`.
pub open spec fn upper_closed_at<T: PartialOrd + PartialOrdSpec>(s: Seq<T>, item: T) -> bool {
    forall|i: int, j: int|
        0 <= i <= j < s.len() && le_at(#[trigger] s[j], item) ==> le_at(#[trigger] s[i], item)
}

/// Binary searches over a sorted slice. The results are meaningful
/// only on sorted input, which the contracts state as the positions
/// below (at or below) the item forming a prefix.
pub trait BoundSearch<T: PartialOrd + PartialOrdSpec>: View<V = Seq<T>> {
    /// The first index whose element is not less than `item`.
    fn lower_bound(&self, item: &T) -> (r: usize)
        requires
            T::obeys_partial_cmp_spec(),
            lower_closed_at(self.view(), *item),
        ensures
            r <= self.view().len(),
            forall|i: int| 0 <= i < r ==> lt_at(#[trigger] self.view()[i], *item),
            forall|i: int| r <= i < self.view().len() ==> !lt_at(#[trigger] self.view()[i], *item),
    ;

    /// The first index whose element is greater than `item`.
    fn upper_bound(&self, item: &T) -> (r: usize)
        requires
            T::obeys_partial_cmp_spec(),
            upper_closed_at(self.view(), *item),
        ensures
            r <= self.view().len(),
            forall|i: int| 0 <= i < r ==> le_at(#[trigger] self.view()[i], *item),
            forall|i: int| r <= i < self.view().len() ==> !le_at(#[trigger] self.view()[i], *item),
    ;

    /// As `lower_bound`, probing geometrically from the front first.
    fn lower_bound_via_expansion(&self, item: &T) -> (r: usize)
        requires
            T::obeys_partial_cmp_spec(),
            lower_closed_at(self.view(), *item),
        ensures
            r <= self.view().len(),
            forall|i: int| 0 <= i < r ==> lt_at(#[trigger] self.view()[i], *item),
            forall|i: int| r <= i < self.view().len() ==> !lt_at(#[trigger] self.view()[i], *item),
    ;

    /// As `upper_bound`, probing geometrically from the back first.
    fn upper_bound_via_expansion(&self, item: &T) -> (r: usize)
        requires
            T::obeys_partial_cmp_spec(),
            upper_closed_at(self.view(), *item),
        ensures
            r <= self.view().len(),
            forall|i: int| 0 <= i < r ==> le_at(#[trigger] self.view()[i], *item),
            forall|i: int| r <= i < self.view().len() ==> !le_at(#[trigger] self.view()[i], *item),
    ;
}

/// Binary search for the partition point of `pred` = "element is below
/// the item" inside `s[lo..hi]`, where the region below `lo` is known
/// below and the region at or past `hi` is known not below.
fn partition_point_lt<T: Copy + PartialOrd + PartialOrdSpec>(
    s: &[T],
    item: &T,
    lo: usize,
    hi: usize,
) -> (r: usize)
    requires
        T::obeys_partial_cmp_spec(),
        lower_closed_at(s@, *item),
        lo <= hi <= s@.len(),
        forall|i: int| 0 <= i < lo ==> lt_at(#[trigger] s@[i], *item),
        forall|i: int| hi <= i < s@.len() ==> !lt_at(#[trigger] s@[i], *item),
    ensures
        r <= s@.len(),
        forall|i: int| 0 <= i < r ==> lt_at(#[trigger] s@[i], *item),
        forall|i: int| r <= i < s@.len() ==> !lt_at(#[trigger] s@[i], *item),
{
    let mut lo = lo;
    let mut hi = hi;
    while lo < hi
        invariant
            T::obeys_partial_cmp_spec(),
            lower_closed_at(s@, *item),
            lo <= hi <= s@.len(),
            forall|i: int| 0 <= i < lo ==> lt_at(#[trigger] s@[i], *item),
            forall|i: int| hi <= i < s@.len() ==> !lt_at(#[trigger] s@[i], *item),
        decreases hi - lo,
    {
        let mid = lo + (hi - lo) / 2;
        if s[mid].lt(item) {
            lo = mid + 1;
        } else {
            hi = mid;
        }
    }
    lo
}

/// As `partition_point_lt`, for `pred` = "element is at or below".
fn partition_point_le<T: Copy + PartialOrd + PartialOrdSpec>(
    s: &[T],
    item: &T,
    lo: usize,
    hi: usize,
) -> (r: usize)
    requires
        T::obeys_partial_cmp_spec(),
        upper_closed_at(s@, *item),
        lo <= hi <= s@.len(),
        forall|i: int| 0 <= i < lo ==> le_at(#[trigger] s@[i], *item),
        forall|i: int| hi <= i < s@.len() ==> !le_at(#[trigger] s@[i], *item),
    ensures
        r <= s@.len(),
        forall|i: int| 0 <= i < r ==> le_at(#[trigger] s@[i], *item),
        forall|i: int| r <= i < s@.len() ==> !le_at(#[trigger] s@[i], *item),
{
    let mut lo = lo;
    let mut hi = hi;
    while lo < hi
        invariant
            T::obeys_partial_cmp_spec(),
            upper_closed_at(s@, *item),
            lo <= hi <= s@.len(),
            forall|i: int| 0 <= i < lo ==> le_at(#[trigger] s@[i], *item),
            forall|i: int| hi <= i < s@.len() ==> !le_at(#[trigger] s@[i], *item),
        decreases hi - lo,
    {
        let mid = lo + (hi - lo) / 2;
        if s[mid].le(item) {
            lo = mid + 1;
        } else {
            hi = mid;
        }
    }
    lo
}

impl<T: Copy + PartialOrd + PartialOrdSpec> BoundSearch<T> for [T] {
    fn lower_bound(&self, item: &T) -> (r: usize) {
        partition_point_lt(self, item, 0, self.len())
    }

    fn upper_bound(&self, item: &T) -> (r: usize) {
        partition_point_le(self, item, 0, self.len())
    }

    fn lower_bound_via_expansion(&self, item: &T) -> (r: usize) {
        let len = self.len();
        let mut start: usize = 0;
        let mut end: usize = 1;
        while end < len && self[end].lt(item)
            invariant
                T::obeys_partial_cmp_spec(),
                lower_closed_at(self@, *item),
                len == self@.len(),
                start < end,
                start <= len,
                forall|i: int| 0 <= i < start ==> lt_at(#[trigger] self@[i], *item),
            decreases len - start,
        {
            start = end;
            end = if end <= len / 2 {
                end * 2
            } else {
                len
            };
        }
        let hi = if end < len {
            end
        } else {
            len
        };
        partition_point_lt(self, item, start, hi)
    }

    fn upper_bound_via_expansion(&self, item: &T) -> (r: usize) {
        let len = self.len();
        // here `start` and `end` count backwards from the end
        let mut start: usize = 0;
        let mut end: usize = 1;
        while end < len && !self[len - end].le(item)
            invariant
                T::obeys_partial_cmp_spec(),
                upper_closed_at(self@, *item),
                len == self@.len(),
                start < end,
                start <= len,
                forall|i: int| len - start <= i < len ==> !le_at(#[trigger] self@[i], *item),
            decreases len - start,
        {
            start = end;
            end = if end <= len / 2 {
                end * 2
            } else {
                len
            };
        }
        let lo = if end < len {
            len - end
        } else {
            0
        };
        partition_point_le(self, item, lo, len - start)
    }
}

} // verus!
