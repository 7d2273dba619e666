//! In-place deduplication of a list, keeping the first occurrence of each
//! element.

use vstd::prelude::*;

use crate::expression::{contains_name, seq_has, str_views};

verus! {

/// A container that can drop its repeated elements in place.
pub trait Distinct: Sized {
    /// How the container after deduplication relates to the one before.
    spec fn distinct_ok(pre: Self, post: Self) -> bool;

    /// Drops every repetition, keeping the first occurrence of each element
    /// in its original order.
    fn distinct(&mut self)
        ensures
            Self::distinct_ok(*old(self), *final(self)),
    ;
}

/// The string sequence with every repetition of an earlier content dropped.
pub open spec fn dedup_names(s: Seq<String>) -> Seq<String>
    decreases s.len(),
{
    if s.len() == 0 {
        Seq::empty()
    } else {
        let prefix = dedup_names(s.drop_last());
        if seq_has(str_views(prefix), s.last()@) {
            prefix
        } else {
            prefix.push(s.last())
        }
    }
}

impl Distinct for Vec<String> {
    /// Deduplication by character content, first occurrences kept in order.
    open spec fn distinct_ok(pre: Vec<String>, post: Vec<String>) -> bool {
        post@ == dedup_names(pre@)
    }

    fn distinct(&mut self) {
        let mut out: Vec<String> = Vec::new();
        let n = self.len();
        let mut i: usize = 0;
        proof {
            assert(out@ =~= dedup_names(self@.subrange(0, 0)));
        }
        while i < n
            invariant
                n == self@.len(),
                0 <= i <= n,
                out@ == dedup_names(self@.subrange(0, i as int)),
            decreases n - i,
        {
            let ghost prev = out@;
            let x = self[i].clone();
            let ghost xv = x@;
            let present = contains_name(&out, &x);
            proof {
                if present {
                    let k = choose|k: int| 0 <= k < prev.len() && #[trigger] prev[k]@ == xv;
                    assert(str_views(prev)[k] == xv);
                    assert(seq_has(str_views(prev), xv));
                } else {
                    assert forall|k: int|
                        0 <= k < str_views(prev).len() implies #[trigger] str_views(prev)[k]
                        != xv by {
                        assert(prev[k]@ != xv);
                    }
                    assert(!seq_has(str_views(prev), xv));
                }
            }
            if !present {
                out.push(x);
            }
            proof {
                assert(self@.subrange(0, i + 1).drop_last() =~= self@.subrange(0, i as int));
                assert(self@.subrange(0, i + 1).last() == self@[i as int]);
                assert(self@[i as int]@ == xv);
                if !present {
                    assert(out@ =~= prev.push(self@[i as int])) by {
                        assert(out@.last() == x);
                        assert(x == self@[i as int]);
                    }
                }
                assert(out@ =~= dedup_names(self@.subrange(0, i + 1)));
            }
            i = i + 1;
        }
        proof {
            assert(self@.subrange(0, n as int) =~= self@);
        }
        *self = out;
    }
}


/// The integer sequence with every repetition of an earlier value dropped.
pub open spec fn dedup_ints(s: Seq<i32>) -> Seq<i32>
    decreases s.len(),
{
    if s.len() == 0 {
        Seq::empty()
    } else {
        let prefix = dedup_ints(s.drop_last());
        if prefix.contains(s.last()) {
            prefix
        } else {
            prefix.push(s.last())
        }
    }
}

/// Whether `x` occurs in `v`.
fn contains_int(v: &Vec<i32>, x: i32) -> (r: bool)
    ensures
        r == v@.contains(x),
{
    let mut i: usize = 0;
    while i < v.len()
        invariant
            0 <= i <= v@.len(),
            forall|j: int| 0 <= j < i ==> v@[j] != x,
        decreases v@.len() - i,
    {
        if v[i] == x {
            return true;
        }
        i = i + 1;
    }
    false
}

impl Distinct for Vec<i32> {
    /// Deduplication by value, first occurrences kept in order.
    open spec fn distinct_ok(pre: Vec<i32>, post: Vec<i32>) -> bool {
        post@ == dedup_ints(pre@)
    }

    fn distinct(&mut self) {
        let mut out: Vec<i32> = Vec::new();
        let n = self.len();
        let mut i: usize = 0;
        proof {
            assert(out@ =~= dedup_ints(self@.subrange(0, 0)));
        }
        while i < n
            invariant
                n == self@.len(),
                0 <= i <= n,
                out@ == dedup_ints(self@.subrange(0, i as int)),
            decreases n - i,
        {
            let x = self[i];
            if !contains_int(&out, x) {
                out.push(x);
            }
            proof {
                assert(self@.subrange(0, i + 1).drop_last() =~= self@.subrange(0, i as int));
                assert(self@.subrange(0, i + 1).last() == self@[i as int]);
                assert(out@ =~= dedup_ints(self@.subrange(0, i + 1)));
            }
            i = i + 1;
        }
        proof {
            assert(self@.subrange(0, n as int) =~= self@);
        }
        *self = out;
    }
}

} // verus!
