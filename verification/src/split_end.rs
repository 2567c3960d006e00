//! Splitting already-borrowed slices at either end: one element at a time, or
//! a counted prefix or suffix.  These operate on plain borrowed data and need
//! no ownership machinery; positions in a `&str` are counted in characters.

use vstd::prelude::*;

verus! {

use vstd::string::StrSliceExecFns;
use vstd::slice::slice_subrange;

/// Splitting a value of a sliceable type at its front or back.
pub trait SplitEnd: Sized {
    type Item;

    /// The elements the value consists of.
    spec fn items(self) -> Seq<Self::Item>;

    /// The first element and everything after it; `None` when empty.
    fn split_first(self) -> (r: Option<(Self::Item, Self)>)
        ensures
            r is None <==> self.items().len() == 0,
            r matches Some((x, rest)) ==> self.items().len() > 0 && x == self.items()[0]
                && rest.items() == self.items().drop_first(),
    ;

    /// The last element and everything before it; `None` when empty.
    fn split_last(self) -> (r: Option<(Self::Item, Self)>)
        ensures
            r is None <==> self.items().len() == 0,
            r matches Some((x, rest)) ==> self.items().len() > 0 && x == self.items().last()
                && rest.items() == self.items().drop_last(),
    ;

    /// The first `n` elements and the rest; `None` when fewer than `n` exist.
    fn try_split_first_n(self, n: usize) -> (r: Option<(Self, Self)>)
        ensures
            r is None <==> n > self.items().len(),
            r matches Some((front, back)) ==> n <= self.items().len() && front.items()
                == self.items().take(n as int) && back.items() == self.items().skip(n as int),
    ;

    /// The last `n` elements and the rest, in that order; `None` when fewer
    /// than `n` exist.
    fn try_split_last_n(self, n: usize) -> (r: Option<(Self, Self)>)
        ensures
            r is None <==> n > self.items().len(),
            r matches Some((back, front)) ==> n <= self.items().len() && back.items()
                == self.items().skip(self.items().len() - n) && front.items() == self.items().take(
                self.items().len() - n,
            ),
    ;

    /// The first `n` elements and the rest.  Asking for more elements than
    /// exist is a caller error, ruled out by the precondition.
    fn split_first_n(self, n: usize) -> (r: (Self, Self))
        requires
            n <= self.items().len(),
        ensures
            r.0.items() == self.items().take(n as int),
            r.1.items() == self.items().skip(n as int),
    ;

    /// The last `n` elements and the rest, in that order.  Asking for more
    /// elements than exist is a caller error, ruled out by the precondition.
    fn split_last_n(self, n: usize) -> (r: (Self, Self))
        requires
            n <= self.items().len(),
        ensures
            r.0.items() == self.items().skip(self.items().len() - n),
            r.1.items() == self.items().take(self.items().len() - n),
    ;
}

impl<'a> SplitEnd for &'a str {
    type Item = char;

    open spec fn items(self) -> Seq<char> {
        self@
    }

    fn split_first(self) -> (r: Option<(char, &'a str)>) {
        let n = self.unicode_len();
        if n == 0 {
            None
        } else {
            let c = self.get_char(0);
            let rest = self.substring_char(1, n);
            proof {
                assert(rest@ =~= self@.drop_first());
            }
            Some((c, rest))
        }
    }

    fn split_last(self) -> (r: Option<(char, &'a str)>) {
        let n = self.unicode_len();
        if n == 0 {
            None
        } else {
            let c = self.get_char(n - 1);
            let rest = self.substring_char(0, n - 1);
            proof {
                assert(rest@ =~= self@.drop_last());
            }
            Some((c, rest))
        }
    }

    fn try_split_first_n(self, n: usize) -> (r: Option<(&'a str, &'a str)>) {
        let len = self.unicode_len();
        if n <= len {
            let front = self.substring_char(0, n);
            let back = self.substring_char(n, len);
            proof {
                assert(front@ =~= self@.take(n as int));
                assert(back@ =~= self@.skip(n as int));
            }
            Some((front, back))
        } else {
            None
        }
    }

    fn try_split_last_n(self, n: usize) -> (r: Option<(&'a str, &'a str)>) {
        let len = self.unicode_len();
        if n <= len {
            let back = self.substring_char(len - n, len);
            let front = self.substring_char(0, len - n);
            proof {
                assert(back@ =~= self@.skip(self@.len() - n));
                assert(front@ =~= self@.take(self@.len() - n));
            }
            Some((back, front))
        } else {
            None
        }
    }

    fn split_first_n(self, n: usize) -> (r: (&'a str, &'a str)) {
        let len = self.unicode_len();
        let front = self.substring_char(0, n);
        let back = self.substring_char(n, len);
        proof {
            assert(front@ =~= self@.take(n as int));
            assert(back@ =~= self@.skip(n as int));
        }
        (front, back)
    }

    fn split_last_n(self, n: usize) -> (r: (&'a str, &'a str)) {
        let len = self.unicode_len();
        let back = self.substring_char(len - n, len);
        let front = self.substring_char(0, len - n);
        proof {
            assert(back@ =~= self@.skip(self@.len() - n));
            assert(front@ =~= self@.take(self@.len() - n));
        }
        (back, front)
    }
}

impl<'a, T> SplitEnd for &'a [T] {
    type Item = &'a T;

    open spec fn items(self) -> Seq<&'a T> {
        Seq::new(self@.len(), |i: int| &self@[i])
    }

    fn split_first(self) -> (r: Option<(&'a T, &'a [T])>) {
        if self.len() == 0 {
            None
        } else {
            let x = vstd::slice::slice_index_get(self, 0);
            let rest = slice_subrange(self, 1, self.len());
            proof {
                assert(rest.items() =~= self.items().drop_first());
            }
            Some((x, rest))
        }
    }

    fn split_last(self) -> (r: Option<(&'a T, &'a [T])>) {
        let n = self.len();
        if n == 0 {
            None
        } else {
            let x = vstd::slice::slice_index_get(self, n - 1);
            let rest = slice_subrange(self, 0, n - 1);
            proof {
                assert(rest.items() =~= self.items().drop_last());
                assert(x == self.items().last());
            }
            Some((x, rest))
        }
    }

    fn try_split_first_n(self, n: usize) -> (r: Option<(&'a [T], &'a [T])>) {
        if n <= self.len() {
            let (front, back) = self.split_at(n);
            proof {
                assert(front.items() =~= self.items().take(n as int));
                assert(back.items() =~= self.items().skip(n as int));
            }
            Some((front, back))
        } else {
            None
        }
    }

    fn try_split_last_n(self, n: usize) -> (r: Option<(&'a [T], &'a [T])>) {
        let len = self.len();
        if n <= len {
            let (front, back) = self.split_at(len - n);
            proof {
                assert(back.items() =~= self.items().skip(self.items().len() - n));
                assert(front.items() =~= self.items().take(self.items().len() - n));
            }
            Some((back, front))
        } else {
            None
        }
    }

    fn split_first_n(self, n: usize) -> (r: (&'a [T], &'a [T])) {
        let (front, back) = self.split_at(n);
        proof {
            assert(front.items() =~= self.items().take(n as int));
            assert(back.items() =~= self.items().skip(n as int));
        }
        (front, back)
    }

    fn split_last_n(self, n: usize) -> (r: (&'a [T], &'a [T])) {
        let (front, back) = self.split_at(self.len() - n);
        proof {
            assert(back.items() =~= self.items().skip(self.items().len() - n));
            assert(front.items() =~= self.items().take(self.items().len() - n));
        }
        (back, front)
    }
}

} // verus!
