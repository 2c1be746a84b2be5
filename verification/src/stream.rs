//! A cursor over an immutable sequence: one item of lookahead, conditional
//! advance, literal matching, and a mark from which the consumed run can be
//! read back without copying.
use vstd::prelude::*;
use vstd::slice::slice_subrange;

verus! {

/// A position-tracking reader over a fixed sequence of items.
///
/// In contracts a stream is three values: the sequence it reads (`data`), the
/// index of the next item (`cursor`) and the index that `anchor` last marked
/// (`mark`). No operation changes `data`; only `anchor` changes `mark`; and
/// after every operation `mark <= cursor <= data.len()`.
pub trait Stream<T> {
    /// The whole sequence that the stream reads.
    /// An impl states it; where it does not, nothing is known of it.
    open spec fn data(&self) -> Seq<T> {
        arbitrary()
    }

    /// The index of the next item.
    open spec fn cursor(&self) -> nat {
        arbitrary()
    }

    /// The index that `anchor` marked last.
    open spec fn mark(&self) -> nat {
        arbitrary()
    }

    /// What the implementation needs to hold of itself between calls.
    open spec fn inv(&self) -> bool {
        arbitrary()
    }

    /// The item at the cursor, if there is one. The stream does not move.
    fn peek(&mut self) -> (r: Option<&T>)
        requires
            old(self).inv(),
        ensures
            final(self).inv(),
            in_bounds(final(self).data(), final(self).mark(), final(self).cursor()),
            final(self).data() == old(self).data(),
            final(self).mark() == old(self).mark(),
            final(self).cursor() == old(self).cursor(),
            old(self).cursor() < old(self).data().len() ==> r == Some(
                &old(self).data()[old(self).cursor() as int],
            ),
            old(self).cursor() >= old(self).data().len() ==> r is None,
    ;

    /// The item at the cursor, if there is one, and the cursor moves past it.
    /// At the end of the sequence nothing is returned and the cursor stays.
    fn next(&mut self) -> (r: Option<&T>)
        requires
            old(self).inv(),
        ensures
            final(self).inv(),
            in_bounds(final(self).data(), final(self).mark(), final(self).cursor()),
            final(self).data() == old(self).data(),
            final(self).mark() == old(self).mark(),
            old(self).cursor() < old(self).data().len() ==> r == Some(
                &old(self).data()[old(self).cursor() as int],
            ) && final(self).cursor() == old(self).cursor() + 1,
            old(self).cursor() >= old(self).data().len() ==> r is None && final(self).cursor()
                == old(self).cursor(),
    ;

    /// Moves the cursor past the longest run of items on which `cond` holds.
    fn while_if<F>(&mut self, cond: F) where F: Fn(&T) -> bool
        requires
            old(self).inv(),
            forall|t: &T| call_requires(cond, (t,)),
        ensures
            final(self).inv(),
            in_bounds(final(self).data(), final(self).mark(), final(self).cursor()),
            final(self).data() == old(self).data(),
            final(self).mark() == old(self).mark(),
            old(self).cursor() <= final(self).cursor() <= old(self).data().len(),
            forall|i: int|
                old(self).cursor() <= i < final(self).cursor() ==> call_ensures(
                    cond,
                    (&#[trigger] old(self).data()[i],),
                    true,
                ),
            final(self).cursor() < old(self).data().len() ==> call_ensures(
                cond,
                (&old(self).data()[final(self).cursor() as int],),
                false,
            ),
    ;

    /// Moves the cursor by one if there is an item at the cursor and `cond`
    /// holds on it, and says whether it moved.
    fn next_if<F>(&mut self, cond: F) -> (r: bool) where F: Fn(&T) -> bool
        requires
            old(self).inv(),
            forall|t: &T| call_requires(cond, (t,)),
        ensures
            final(self).inv(),
            in_bounds(final(self).data(), final(self).mark(), final(self).cursor()),
            final(self).data() == old(self).data(),
            final(self).mark() == old(self).mark(),
            r ==> old(self).cursor() < old(self).data().len() && call_ensures(
                cond,
                (&old(self).data()[old(self).cursor() as int],),
                true,
            ) && final(self).cursor() == old(self).cursor() + 1,
            !r ==> final(self).cursor() == old(self).cursor() && (old(self).cursor() < old(
                self,
            ).data().len() ==> call_ensures(
                cond,
                (&old(self).data()[old(self).cursor() as int],),
                false,
            )),
    ;

    /// Moves the cursor past `it` if the items at the cursor are exactly
    /// `it`; otherwise the cursor stays where it was.
    fn expect(&mut self, it: &[T]) -> (r: bool)
        requires
            old(self).inv(),
        ensures
            final(self).inv(),
            in_bounds(final(self).data(), final(self).mark(), final(self).cursor()),
            final(self).data() == old(self).data(),
            final(self).mark() == old(self).mark(),
            r == starts_with_at(old(self).data(), old(self).cursor() as int, it@),
            final(self).cursor() == if r {
                old(self).cursor() + it@.len()
            } else {
                old(self).cursor()
            },
    ;

    /// The index of the next item.
    fn position(&self) -> (p: usize)
        requires
            self.inv(),
        ensures
            p == self.cursor(),
    ;

    /// Whether every item has been consumed.
    fn finish(&self) -> (r: bool)
        requires
            self.inv(),
        ensures
            r == (self.cursor() == self.data().len()),
    ;

    /// Moves the cursor by one; at the end of the sequence it stays.
    fn skip(&mut self)
        requires
            old(self).inv(),
        ensures
            final(self).inv(),
            in_bounds(final(self).data(), final(self).mark(), final(self).cursor()),
            final(self).data() == old(self).data(),
            final(self).mark() == old(self).mark(),
            final(self).cursor() == advance(
                old(self).data().len() as int,
                old(self).cursor() as int,
                1,
            ),
    ;

    /// Moves the cursor by `size`, and no further than the end of the sequence.
    fn skip_by(&mut self, size: usize)
        requires
            old(self).inv(),
        ensures
            final(self).inv(),
            in_bounds(final(self).data(), final(self).mark(), final(self).cursor()),
            final(self).data() == old(self).data(),
            final(self).mark() == old(self).mark(),
            final(self).cursor() == advance(
                old(self).data().len() as int,
                old(self).cursor() as int,
                size as int,
            ),
    ;

    /// Marks the cursor's index.
    fn anchor(&mut self)
        requires
            old(self).inv(),
        ensures
            final(self).inv(),
            in_bounds(final(self).data(), final(self).mark(), final(self).cursor()),
            final(self).data() == old(self).data(),
            final(self).cursor() == old(self).cursor(),
            final(self).mark() == old(self).cursor(),
    ;

    /// The items from the mark up to the cursor.
    fn read(&mut self) -> (r: &[T])
        requires
            old(self).inv(),
        ensures
            final(self).inv(),
            in_bounds(final(self).data(), final(self).mark(), final(self).cursor()),
            final(self).data() == old(self).data(),
            final(self).mark() == old(self).mark(),
            final(self).cursor() == old(self).cursor(),
            r@ == old(self).data().subrange(old(self).mark() as int, old(self).cursor() as int),
    ;
}

/// Whether the mark is not after the cursor and the cursor not after the end.
pub open spec fn in_bounds<T>(data: Seq<T>, mark: nat, cursor: nat) -> bool {
    mark <= cursor <= data.len()
}

/// Whether `lit` stands in `data` at index `at`.
pub open spec fn starts_with_at<T>(data: Seq<T>, at: int, lit: Seq<T>) -> bool {
    &&& 0 <= at
    &&& at + lit.len() <= data.len()
    &&& data.subrange(at, at + lit.len()) == lit
}

/// The index reached from `from` by `by` steps in a sequence of `len` items.
pub open spec fn advance(len: int, from: int, by: int) -> int {
    if from + by <= len {
        from + by
    } else {
        len
    }
}

/// A [`Stream`] of bytes over a borrowed slice.
pub struct SliceBytes<'a> {
    bytes: &'a [u8],
    pos: usize,
    anchor_point: usize,
    length: usize,
}

impl<'a> SliceBytes<'a> {
    /// A stream at the start of `bytes`.
    pub fn new(bytes: &'a [u8]) -> (s: SliceBytes<'a>)
        ensures
            s.inv(),
            s.data() == bytes@,
            s.cursor() == 0,
            s.mark() == 0,
    {
        SliceBytes { bytes, pos: 0, anchor_point: 0, length: bytes.len() }
    }
}

impl<'a> Stream<u8> for SliceBytes<'a> {
    closed spec fn data(&self) -> Seq<u8> {
        self.bytes@
    }

    closed spec fn cursor(&self) -> nat {
        self.pos as nat
    }

    closed spec fn mark(&self) -> nat {
        self.anchor_point as nat
    }

    closed spec fn inv(&self) -> bool {
        &&& self.length == self.bytes@.len()
        &&& self.anchor_point <= self.pos <= self.length
    }

    #[inline]
    fn peek(&mut self) -> (r: Option<&u8>) {
        if self.pos < self.length {
            Some(&self.bytes[self.pos])
        } else {
            None
        }
    }

    #[inline]
    fn next(&mut self) -> (r: Option<&u8>) {
        if self.pos < self.length {
            self.pos += 1;
            Some(&self.bytes[self.pos - 1])
        } else {
            None
        }
    }

    #[inline]
    fn while_if<F>(&mut self, cond: F) where F: Fn(&u8) -> bool {
        let ghost start = self.pos;
        while self.pos < self.length
            invariant
                self.inv(),
                self.bytes == old(self).bytes,
                self.anchor_point == old(self).anchor_point,
                start == old(self).pos,
                start <= self.pos,
                forall|t: &u8| call_requires(cond, (t,)),
                forall|i: int|
                    start <= i < self.pos ==> call_ensures(cond, (&#[trigger] self.bytes@[i],), true),
            ensures
                self.inv(),
                self.bytes == old(self).bytes,
                self.anchor_point == old(self).anchor_point,
                old(self).pos <= self.pos,
                forall|i: int|
                    old(self).pos <= i < self.pos ==> call_ensures(
                        cond,
                        (&#[trigger] self.bytes@[i],),
                        true,
                    ),
                self.pos < self.length ==> call_ensures(cond, (&self.bytes@[self.pos as int],), false),
            decreases self.length - self.pos,
        {
            if !cond(&self.bytes[self.pos]) {
                break ;
            }
            self.pos += 1;
        }
    }

    #[inline]
    fn next_if<F>(&mut self, cond: F) -> (r: bool) where F: Fn(&u8) -> bool {
        if self.pos < self.length {
            if cond(&self.bytes[self.pos]) {
                self.pos += 1;
                return true;
            }
        }
        false
    }

    #[inline]
    fn expect(&mut self, it: &[u8]) -> (r: bool) {
        let n = it.len();
        if self.length - self.pos < n {
            return false;
        }
        let mut i: usize = 0;
        while i < n
            invariant
                self.inv(),
                self.bytes == old(self).bytes,
                self.pos == old(self).pos,
                self.anchor_point == old(self).anchor_point,
                n == it@.len(),
                i <= n,
                self.pos + n <= self.length,
                forall|j: int| 0 <= j < i ==> self.bytes@[self.pos + j] == it@[j],
            decreases n - i,
        {
            if self.bytes[self.pos + i] != it[i] {
                assert(self.bytes@.subrange(self.pos as int, self.pos + n)[i as int] != it@[i as int]);
                return false;
            }
            i += 1;
        }
        assert(self.bytes@.subrange(self.pos as int, self.pos + n) =~= it@);
        self.pos += n;
        true
    }

    #[inline]
    fn position(&self) -> (p: usize) {
        self.pos
    }

    #[inline]
    fn finish(&self) -> (r: bool) {
        self.length <= self.pos
    }

    #[inline]
    fn skip(&mut self) {
        if self.pos < self.length {
            self.pos += 1;
        }
    }

    #[inline]
    fn skip_by(&mut self, size: usize) {
        if size <= self.length - self.pos {
            self.pos += size;
        } else {
            self.pos = self.length;
        }
    }

    #[inline]
    fn anchor(&mut self) {
        self.anchor_point = self.pos
    }

    #[inline]
    fn read(&mut self) -> (r: &[u8]) {
        slice_subrange(self.bytes, self.anchor_point, self.pos)
    }
}

} // verus!
