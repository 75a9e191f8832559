//! Binary-search ("chop") variants over a sorted slice.
//!
//! Every variant returns the index of the needle as an `isize`, or `-1`
//! when the needle is absent.  All of them share one contract: on a
//! sorted slice the result is `-1` exactly when the needle does not
//! occur, and otherwise an index holding the needle.

use vstd::prelude::*;
use vstd::slice::slice_subrange;

verus! {

/// The slice's elements appear in non-decreasing order.
pub open spec fn sorted(s: Seq<i32>) -> bool {
    forall|i: int, j: int| 0 <= i <= j < s.len() ==> s[i] <= s[j]
}

pub fn chop_iterative(needle: i32, silo: &[i32]) -> (r: isize)
    requires
        sorted(silo@),
        silo@.len() <= isize::MAX,
    ensures
        silo@.contains(needle) ==> 0 <= r < silo@.len() && silo@[r as int] == needle,
        !silo@.contains(needle) ==> r == -1,
{
    let mut start: usize = 0;
    let mut end: usize = silo.len();
    while start < end
        invariant
            start <= end <= silo@.len() <= isize::MAX,
            sorted(silo@),
            forall|i: int| 0 <= i < start ==> silo@[i] < needle,
            forall|i: int| end <= i < silo@.len() ==> needle < silo@[i],
        decreases end - start,
    {
        let current = (start + end) / 2;
        let element = silo[current];
        if needle == element {
            return current as isize;
        } else if needle < element {
            end = current;
        } else {
            start = current + 1;
        }
    }
    -1
}

pub fn chop_recursive_iter(needle: i32, silo: &[i32], start: usize, end: usize) -> (r: isize)
    requires
        sorted(silo@),
        start <= end <= silo@.len() <= isize::MAX,
    ensures
        silo@.subrange(start as int, end as int).contains(needle) ==> start <= r < end
            && silo@[r as int] == needle,
        !silo@.subrange(start as int, end as int).contains(needle) ==> r == -1,
    decreases end - start,
{
    let ghost range = silo@.subrange(start as int, end as int);
    if start >= end {
        return -1;
    }
    let middle = (start + end) / 2;
    let element = silo[middle];
    assert(silo@[middle as int] == range[middle - start]);
    if needle == element {
        middle as isize
    } else if needle < element {
        let r = chop_recursive_iter(needle, silo, start, middle);
        proof {
            let sub = silo@.subrange(start as int, middle as int);
            if range.contains(needle) {
                let k = choose|k: int| 0 <= k < range.len() && range[k] == needle;
                assert(k + start < middle) by {
                    assert(silo@[k + start] == needle);
                }
                assert(sub[k] == needle);
            }
            if sub.contains(needle) {
                let k = choose|k: int| 0 <= k < sub.len() && sub[k] == needle;
                assert(range[k] == needle);
            }
        }
        r
    } else {
        let r = chop_recursive_iter(needle, silo, middle + 1, end);
        proof {
            let sub = silo@.subrange(middle + 1, end as int);
            if range.contains(needle) {
                let k = choose|k: int| 0 <= k < range.len() && range[k] == needle;
                assert(k + start > middle) by {
                    assert(silo@[k + start] == needle);
                }
                assert(sub[k + start - middle - 1] == needle);
            }
            if sub.contains(needle) {
                let k = choose|k: int| 0 <= k < sub.len() && sub[k] == needle;
                assert(range[k + middle + 1 - start] == needle);
            }
        }
        r
    }
}

pub fn chop_recursive(needle: i32, silo: &[i32]) -> (r: isize)
    requires
        sorted(silo@),
        silo@.len() <= isize::MAX,
    ensures
        silo@.contains(needle) ==> 0 <= r < silo@.len() && silo@[r as int] == needle,
        !silo@.contains(needle) ==> r == -1,
{
    let r = chop_recursive_iter(needle, silo, 0, silo.len());
    proof {
        assert(silo@.subrange(0, silo@.len() as int) =~= silo@);
    }
    r
}

/// Searches `silo`, reporting a hit at `offset` plus the local index.
pub fn chop_functional_iter(needle: i32, silo: &[i32], offset: usize) -> (r: isize)
    requires
        sorted(silo@),
        offset + silo@.len() <= isize::MAX,
    ensures
        silo@.contains(needle) ==> offset <= r < offset + silo@.len()
            && silo@[r - offset] == needle,
        !silo@.contains(needle) ==> r == -1,
    decreases silo@.len(),
{
    let start: usize = 0;
    let end: usize = silo.len();
    if start >= end {
        return -1;
    }

    let current = (start + end) / 2;
    let element = silo[current];
    if needle == element {
        (current + offset) as isize
    } else if needle < element {
        let left = slice_subrange(silo, 0, current);
        let r = chop_functional_iter(needle, left, 0);
        proof {
            if silo@.contains(needle) {
                let k = choose|k: int| 0 <= k < silo@.len() && silo@[k] == needle;
                assert(k < current);
                assert(left@[k] == needle);
            }
            if left@.contains(needle) {
                let k = choose|k: int| 0 <= k < left@.len() && left@[k] == needle;
                assert(silo@[k] == needle);
            }
        }
        if r == -1 {
            -1
        } else {
            // A hit in the left half keeps its local index, shifted by our offset.
            r + offset as isize
        }
    } else {
        let right = slice_subrange(silo, current + 1, end);
        let r = chop_functional_iter(needle, right, offset + current + 1);
        proof {
            if silo@.contains(needle) {
                let k = choose|k: int| 0 <= k < silo@.len() && silo@[k] == needle;
                assert(k > current);
                assert(right@[k - current - 1] == needle);
            }
            if right@.contains(needle) {
                let k = choose|k: int| 0 <= k < right@.len() && right@[k] == needle;
                assert(silo@[k + current + 1] == needle);
            }
        }
        r
    }
}

pub fn chop_functional(needle: i32, silo: &[i32]) -> (r: isize)
    requires
        sorted(silo@),
        silo@.len() <= isize::MAX,
    ensures
        silo@.contains(needle) ==> 0 <= r < silo@.len() && silo@[r as int] == needle,
        !silo@.contains(needle) ==> r == -1,
{
    chop_functional_iter(needle, silo, 0)
}

pub fn chop_functional_pure(needle: i32, silo: &[i32]) -> (r: isize)
    requires
        sorted(silo@),
        silo@.len() <= isize::MAX,
    ensures
        silo@.contains(needle) ==> 0 <= r < silo@.len() && silo@[r as int] == needle,
        !silo@.contains(needle) ==> r == -1,
    decreases silo@.len(),
{
    let start: usize = 0;
    let end: usize = silo.len();
    if start >= end {
        return -1;
    }

    let middle_pos = (start + end) / 2;
    let element = silo[middle_pos];
    if needle == element {
        middle_pos as isize
    } else if needle < element {
        let left = slice_subrange(silo, 0, middle_pos);
        let r = chop_functional_pure(needle, left);
        proof {
            if silo@.contains(needle) {
                let k = choose|k: int| 0 <= k < silo@.len() && silo@[k] == needle;
                assert(k < middle_pos);
                assert(left@[k] == needle);
            }
            if left@.contains(needle) {
                let k = choose|k: int| 0 <= k < left@.len() && left@[k] == needle;
                assert(silo@[k] == needle);
            }
        }
        r
    } else {
        let right = slice_subrange(silo, middle_pos + 1, end);
        let pos = chop_functional_pure(needle, right);
        proof {
            if silo@.contains(needle) {
                let k = choose|k: int| 0 <= k < silo@.len() && silo@[k] == needle;
                assert(k > middle_pos);
                assert(right@[k - middle_pos - 1] == needle);
            }
            if right@.contains(needle) {
                let k = choose|k: int| 0 <= k < right@.len() && right@[k] == needle;
                assert(silo@[k + middle_pos + 1] == needle);
            }
        }
        if pos == -1 {
            -1
        } else {
            (middle_pos + 1) as isize + pos
        }
    }
}

pub fn chop_functional_clean(needle: i32, silo: &[i32]) -> (r: isize)
    requires
        sorted(silo@),
        silo@.len() <= isize::MAX,
    ensures
        silo@.contains(needle) ==> 0 <= r < silo@.len() && silo@[r as int] == needle,
        !silo@.contains(needle) ==> r == -1,
    decreases silo@.len(),
{
    let end: usize = silo.len();
    if end == 0 {
        -1
    } else {
        let middle_pos = end / 2;
        let element = silo[middle_pos];
        if needle == element {
            middle_pos as isize
        } else if needle < element {
            let left = slice_subrange(silo, 0, middle_pos);
            let r = chop_functional_clean(needle, left);
            proof {
                if silo@.contains(needle) {
                    let k = choose|k: int| 0 <= k < silo@.len() && silo@[k] == needle;
                    assert(k < middle_pos);
                    assert(left@[k] == needle);
                }
                if left@.contains(needle) {
                    let k = choose|k: int| 0 <= k < left@.len() && left@[k] == needle;
                    assert(silo@[k] == needle);
                }
            }
            r
        } else {
            let right = slice_subrange(silo, middle_pos + 1, end);
            let pos = chop_functional_clean(needle, right);
            proof {
                if silo@.contains(needle) {
                    let k = choose|k: int| 0 <= k < silo@.len() && silo@[k] == needle;
                    assert(k > middle_pos);
                    assert(right@[k - middle_pos - 1] == needle);
                }
                if right@.contains(needle) {
                    let k = choose|k: int| 0 <= k < right@.len() && right@[k] == needle;
                    assert(silo@[k + middle_pos + 1] == needle);
                }
            }
            if pos == -1 {
                -1
            } else {
                (middle_pos + 1) as isize + pos
            }
        }
    }
}

pub fn chop_functional_tail(needle: i32, silo: &[i32]) -> (r: isize)
    requires
        sorted(silo@),
        silo@.len() <= isize::MAX,
    ensures
        silo@.contains(needle) ==> 0 <= r < silo@.len() && silo@[r as int] == needle,
        !silo@.contains(needle) ==> r == -1,
    decreases silo@.len(),
{
    let end: usize = silo.len();
    if end == 0 {
        return -1;
    }

    let middle_pos = end / 2;
    let middle_elem = silo[middle_pos];
    if needle == middle_elem {
        return middle_pos as isize;
    }
    if needle > middle_elem {
        let right = slice_subrange(silo, middle_pos + 1, end);
        let pos = chop_functional_tail(needle, right);
        proof {
            if silo@.contains(needle) {
                let k = choose|k: int| 0 <= k < silo@.len() && silo@[k] == needle;
                assert(k > middle_pos);
                assert(right@[k - middle_pos - 1] == needle);
            }
            if right@.contains(needle) {
                let k = choose|k: int| 0 <= k < right@.len() && right@[k] == needle;
                assert(silo@[k + middle_pos + 1] == needle);
            }
        }
        return if pos == -1 {
            -1
        } else {
            (middle_pos + 1) as isize + pos
        };
    }
    let left = slice_subrange(silo, 0, middle_pos);
    let r = chop_functional_tail(needle, left);
    proof {
        if silo@.contains(needle) {
            let k = choose|k: int| 0 <= k < silo@.len() && silo@[k] == needle;
            assert(k < middle_pos);
            assert(left@[k] == needle);
        }
        if left@.contains(needle) {
            let k = choose|k: int| 0 <= k < left@.len() && left@[k] == needle;
            assert(silo@[k] == needle);
        }
    }
    r
}

/// Returns the element itself rather than its index.
pub fn chop_functional_element(needle: i32, silo: &[i32]) -> (r: Option<i32>)
    requires
        sorted(silo@),
    ensures
        silo@.contains(needle) ==> r == Some(needle),
        !silo@.contains(needle) ==> r is None,
    decreases silo@.len(),
{
    let end: usize = silo.len();
    if end == 0 {
        return None;
    }

    let middle_pos = end / 2;
    let middle_elem = silo[middle_pos];
    if needle == middle_elem {
        Some(middle_elem)
    } else if needle < middle_elem {
        let left = slice_subrange(silo, 0, middle_pos);
        let r = chop_functional_element(needle, left);
        proof {
            if silo@.contains(needle) {
                let k = choose|k: int| 0 <= k < silo@.len() && silo@[k] == needle;
                assert(k < middle_pos);
                assert(left@[k] == needle);
            }
            if left@.contains(needle) {
                let k = choose|k: int| 0 <= k < left@.len() && left@[k] == needle;
                assert(silo@[k] == needle);
            }
        }
        r
    } else {
        let right = slice_subrange(silo, middle_pos + 1, end);
        let r = chop_functional_element(needle, right);
        proof {
            if silo@.contains(needle) {
                let k = choose|k: int| 0 <= k < silo@.len() && silo@[k] == needle;
                assert(k > middle_pos);
                assert(right@[k - middle_pos - 1] == needle);
            }
            if right@.contains(needle) {
                let k = choose|k: int| 0 <= k < right@.len() && right@[k] == needle;
                assert(silo@[k + middle_pos + 1] == needle);
            }
        }
        r
    }
}

} // verus!
