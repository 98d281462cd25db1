use crate::order::{compare_arrays, lemma_lex_equal};
use rand::Rng;
use rand::rngs::ThreadRng;
use std::cmp::Ordering;
use vstd::prelude::*;

verus! {

/// Largest number of cells a circle can hold.
pub const MAX_SIZE: usize = 100;

/// Smallest number of cells a circle can hold.
pub const MIN_SIZE: usize = 3;

/// Number of leading cells that make up the bucket key.
pub const KEY_CELLS: usize = 16;

/// Relies on rand's `ThreadRng`: an opaque handle, only passed on to `random_cell`.
#[verifier::external_type_specification]
#[verifier::external_body]
pub struct ExThreadRng(ThreadRng);

/// Relies on rand::thread_rng: hands out the lazily seeded generator of this thread.
pub assume_specification[ rand::thread_rng ]() -> ThreadRng;

/// Relies on rand's `Rng::gen_range` over `0..=u8::MAX`: one uniform draw over all bytes.
#[verifier::external_body]
fn random_cell(rng: &mut ThreadRng) -> (r: u8) {
    rng.gen_range(0..=u8::MAX)
}

/// Absolute difference of two bytes.
pub open spec fn abs_diff(x: u8, y: u8) -> u8 {
    if x >= y {
        (x - y) as u8
    } else {
        (y - x) as u8
    }
}

/// One step of the process: every cell becomes the absolute difference of
/// its two neighbours on the circle.
pub open spec fn advance_seq(s: Seq<u8>) -> Seq<u8> {
    Seq::new(
        s.len(),
        |i: int| abs_diff(s[(i + s.len() - 1) % (s.len() as int)], s[(i + 1) % (s.len() as int)]),
    )
}

/// Sum of all elements of a byte sequence.
pub open spec fn seq_sum(s: Seq<u8>) -> int
    decreases s.len(),
{
    if s.len() == 0 {
        0
    } else {
        seq_sum(s.drop_last()) + s.last()
    }
}

/// The bucket key of a state: the sum of its first `KEY_CELLS` cells.
pub open spec fn key_sum(s: Seq<u8>) -> int {
    if s.len() <= KEY_CELLS {
        seq_sum(s)
    } else {
        seq_sum(s.take(KEY_CELLS as int))
    }
}

/// A circle of `MIN_SIZE..=MAX_SIZE` byte cells, stored in a fixed buffer whose
/// unused tail is kept at zero.
#[derive(Clone, Copy, Debug)]
pub struct Circle([u8; 100], usize);

impl View for Circle {
    type V = Seq<u8>;

    /// The meaningful cells, in order.
    closed spec fn view(&self) -> Seq<u8> {
        self.0@.subrange(0, self.1 as int)
    }
}

impl Circle {
    #[verifier::type_invariant]
    spec fn inv(self) -> bool {
        &&& MIN_SIZE <= self.1 <= MAX_SIZE
        &&& forall|i: int| self.1 <= i < MAX_SIZE ==> #[trigger] self.0@[i] == 0
    }

    /// Number of cells.
    pub fn size(&self) -> (r: usize)
        ensures
            r == self@.len(),
            MIN_SIZE <= r <= MAX_SIZE,
    {
        proof {
            use_type_invariant(self);
        }
        self.1
    }

    /// A circle with the given cells, or `None` when their number is out of range.
    pub fn from_slice(cells: &[u8]) -> (r: Option<Circle>)
        ensures
            r is Some <==> MIN_SIZE <= cells@.len() <= MAX_SIZE,
            r matches Some(c) ==> c@ == cells@,
    {
        if cells.len() < MIN_SIZE || cells.len() > MAX_SIZE {
            return None;
        }
        let mut l = [0u8; 100];
        let mut i: usize = 0;
        while i < cells.len()
            invariant
                i <= cells@.len() <= MAX_SIZE,
                l@.len() == MAX_SIZE,
                forall|k: int| 0 <= k < i ==> l@[k] == cells@[k],
                forall|k: int| i <= k < MAX_SIZE ==> l@[k] == 0,
            decreases cells@.len() - i,
        {
            l[i] = cells[i];
            i = i + 1;
        }
        let c = Circle(l, cells.len());
        assert(c@ =~= cells@);
        Some(c)
    }

    /// A circle of `size` cells, each drawn uniformly from all byte values.
    pub fn new(size: usize) -> (r: Circle)
        requires
            MIN_SIZE <= size <= MAX_SIZE,
        ensures
            r@.len() == size,
    {
        let mut rng = rand::thread_rng();
        let mut l = [0u8; 100];
        let mut i: usize = 0;
        while i < size
            invariant
                i <= size <= MAX_SIZE,
                l@.len() == MAX_SIZE,
                forall|k: int| size <= k < MAX_SIZE ==> l@[k] == 0,
            decreases size - i,
        {
            l[i] = random_cell(&mut rng);
            i = i + 1;
        }
        Circle(l, size)
    }

    /// The successor circle; `self` is left as it was.
    pub fn next(&mut self) -> (r: Circle)
        ensures
            *final(self) == *old(self),
            r@ == advance_seq(old(self)@),
    {
        proof {
            use_type_invariant(&*self);
        }
        let len = self.1;
        let mut l = [0u8; 100];
        let mut i: usize = 0;
        while i < len
            invariant
                MIN_SIZE <= len <= MAX_SIZE,
                len == self.1,
                i <= len,
                l@.len() == MAX_SIZE,
                forall|k: int| len <= k < MAX_SIZE ==> l@[k] == 0,
                forall|k: int| 0 <= k < i ==> l@[k] == #[trigger] advance_seq(self@)[k],
            decreases len - i,
        {
            let left = if i == 0 { self.0[len - 1] } else { self.0[i - 1] };
            let right = if i + 1 == len { self.0[0] } else { self.0[i + 1] };
            let d = if left >= right { left - right } else { right - left };
            proof {
                let n = len as int;
                let ii = i as int;
                if i == 0 {
                    assert((ii + n - 1) % n == n - 1) by (nonlinear_arith)
                        requires ii == 0, n >= 3;
                } else {
                    assert((ii + n - 1) % n == ii - 1) by (nonlinear_arith)
                        requires 1 <= ii < n;
                }
                if i + 1 == len {
                    assert((ii + 1) % n == 0) by (nonlinear_arith)
                        requires ii + 1 == n, n >= 3;
                } else {
                    assert((ii + 1) % n == ii + 1) by (nonlinear_arith)
                        requires 0 <= ii, ii + 1 < n;
                }
            }
            l[i] = d;
            i = i + 1;
        }
        let r = Circle(l, len);
        assert(r@ =~= advance_seq(self@));
        r
    }

    /// The bucket key: the sum of the first `KEY_CELLS` cells.
    pub fn sum(&self) -> (r: u128)
        ensures
            r == key_sum(self@),
    {
        proof {
            use_type_invariant(self);
        }
        let stop: usize = if self.1 < KEY_CELLS { self.1 } else { KEY_CELLS };
        let mut total: u128 = 0;
        let mut i: usize = 0;
        while i < stop
            invariant
                stop <= self.1 <= MAX_SIZE,
                self@.len() == self.1,
                stop == if self@.len() <= KEY_CELLS { self@.len() } else { KEY_CELLS as nat },
                i <= stop <= KEY_CELLS,
                total == seq_sum(self@.take(i as int)),
                total <= 255 * i,
            decreases stop - i,
        {
            proof {
                assert(self@.take(i + 1).drop_last() =~= self@.take(i as int));
                assert(self@.take(i + 1).last() == self.0@[i as int]);
                assert(seq_sum(self@.take(i + 1)) == seq_sum(self@.take(i as int)) + self.0@[i as int]);
            }
            total = total + self.0[i] as u128;
            i = i + 1;
        }
        proof {
            assert(self@.take(stop as int) =~= if self@.len() <= KEY_CELLS { self@ } else { self@.take(KEY_CELLS as int) });
        }
        total
    }

    /// Whether two circles hold the same cells.
    pub fn same_cells(&self, other: &Circle) -> (r: bool)
        ensures
            r == (self@ == other@),
    {
        let c = compare_arrays(self.get_array(), other.get_array());
        proof {
            lemma_lex_equal(self@, other@);
        }
        match c {
            Ordering::Equal => true,
            _ => false,
        }
    }

    /// The meaningful cells.
    pub fn get_array(&self) -> (r: &[u8])
        ensures
            r@ == self@,
    {
        proof {
            use_type_invariant(self);
        }
        &self.0[0..self.1]
    }
}

impl PartialEq for Circle {
    /// Two circles are equal when their meaningful cells are.
    fn eq(&self, other: &Circle) -> (r: bool) {
        self.same_cells(other)
    }
}

impl vstd::std_specs::cmp::PartialEqSpecImpl for Circle {
    open spec fn obeys_eq_spec() -> bool {
        true
    }

    open spec fn eq_spec(&self, other: &Circle) -> bool {
        self@ == other@
    }
}

impl Eq for Circle {

}

} // verus!
