//! The size band that decides which segments are alike enough to merge.

use vstd::prelude::*;

verus! {

/// How the running average of a size bucket is kept, and which sizes lie close
/// enough to it to join the bucket.
///
/// The averages are the band's own numbers. [`RatioBand`] keeps them as exact
/// fractions; a band that keeps them in floating point implements this trait
/// outside the library.
pub trait SizeBand {
    /// A running average.
    type Average;

    /// The average of a bucket that holds one segment of the given size.
    open spec fn opened(&self, size: usize) -> Self::Average {
        arbitrary()
    }

    /// Whether a size lies within the band around an average.
    open spec fn admitted(&self, average: Self::Average, size: usize) -> bool {
        arbitrary()
    }

    /// The average after a segment of the given size joins a bucket of `count`.
    open spec fn joined(&self, average: Self::Average, count: nat, size: usize) -> Self::Average {
        arbitrary()
    }

    /// Whether one average lies strictly below another.
    open spec fn lower(&self, a: Self::Average, b: Self::Average) -> bool {
        arbitrary()
    }

    /// The average of a bucket that holds one segment of the given size.
    fn open(&self, size: usize) -> (average: Self::Average)
        ensures
            average == self.opened(size),
    ;

    /// Whether `size` lies within the band around `average`.
    fn admits(&self, average: &Self::Average, size: usize) -> (inside: bool)
        ensures
            inside == self.admitted(*average, size),
    ;

    /// The average after a segment of `size` joins a bucket of `count` segments.
    fn join(&self, average: &Self::Average, count: usize, size: usize) -> (after: Self::Average)
        ensures
            after == self.joined(*average, count as nat, size),
    ;

    /// Whether `a` lies strictly below `b`.
    fn below(&self, a: &Self::Average, b: &Self::Average) -> (less: bool)
        ensures
            less == self.lower(*a, *b),
    ;
}

/// A size band between two fractions of the running average, in exact arithmetic.
///
/// A size belongs to a bucket when it lies strictly between
/// `low_num / low_den` and `high_num / high_den` times the bucket's mean size.
#[derive(Debug, Clone, Copy)]
pub struct RatioBand {
    /// Numerator of the lower multiplier.
    pub low_num: u32,
    /// Denominator of the lower multiplier.
    pub low_den: u32,
    /// Numerator of the upper multiplier.
    pub high_num: u32,
    /// Denominator of the upper multiplier.
    pub high_den: u32,
}

/// A mean size as a fraction: what the sizes add up to over how many there are.
#[derive(Debug, Clone, Copy)]
pub struct MeanSize {
    /// What the sizes add up to, at most the largest `u64`.
    pub sum: u64,
    /// How many sizes there are, at most the largest `u32`.
    pub count: u32,
}

impl Default for RatioBand {
    /// Half to one and a half times the mean.
    fn default() -> (band: Self)
        ensures
            band == (RatioBand { low_num: 1, low_den: 2, high_num: 3, high_den: 2 }),
    {
        RatioBand { low_num: 1, low_den: 2, high_num: 3, high_den: 2 }
    }
}

/// A product of factors of 64, 32 and 32 bits fits 128 bits.
proof fn product_fits(a: u64, b: u32, c: u32)
    ensures
        a as u128 * b as u128 <= 0xffff_ffff_ffff_ffff * 0xffff_ffff,
        (a as u128 * b as u128) * c as u128 <= u128::MAX,
        a as u128 * b as u128 == a * b,
{
    assert(a * b <= 0xffff_ffff_ffff_ffff * 0xffff_ffff) by (nonlinear_arith)
        requires
            a <= 0xffff_ffff_ffff_ffff,
            b <= 0xffff_ffff,
    ;
    assert((a * b) * c <= (0xffff_ffff_ffff_ffff * 0xffff_ffff) * 0xffff_ffff) by (nonlinear_arith)
        requires
            a * b <= 0xffff_ffff_ffff_ffff * 0xffff_ffff,
            a * b >= 0,
            c <= 0xffff_ffff,
    ;
}

impl SizeBand for RatioBand {
    type Average = MeanSize;

    open spec fn opened(&self, size: usize) -> MeanSize {
        MeanSize { sum: size as u64, count: 1 }
    }

    open spec fn admitted(&self, average: MeanSize, size: usize) -> bool {
        &&& (size * average.count) * self.low_den > average.sum * self.low_num
        &&& (size * average.count) * self.high_den < average.sum * self.high_num
    }

    open spec fn joined(&self, average: MeanSize, count: nat, size: usize) -> MeanSize {
        MeanSize {
            sum: if average.sum + size <= u64::MAX {
                (average.sum + size) as u64
            } else {
                u64::MAX
            },
            count: if average.count < u32::MAX {
                (average.count + 1) as u32
            } else {
                u32::MAX
            },
        }
    }

    open spec fn lower(&self, a: MeanSize, b: MeanSize) -> bool {
        a.sum * b.count < b.sum * a.count
    }

    fn open(&self, size: usize) -> (average: MeanSize) {
        MeanSize { sum: size as u64, count: 1 }
    }

    fn admits(&self, average: &MeanSize, size: usize) -> (inside: bool) {
        proof {
            product_fits(size as u64, average.count, self.low_den);
            product_fits(size as u64, average.count, self.high_den);
            product_fits(average.sum, self.low_num, 1);
            product_fits(average.sum, self.high_num, 1);
        }
        let total: u128 = size as u128 * average.count as u128;
        total * self.low_den as u128 > average.sum as u128 * self.low_num as u128 && total
            * (self.high_den as u128) < average.sum as u128 * self.high_num as u128
    }

    fn join(&self, average: &MeanSize, count: usize, size: usize) -> (after: MeanSize) {
        MeanSize {
            sum: average.sum.saturating_add(size as u64),
            count: average.count.saturating_add(1),
        }
    }

    fn below(&self, a: &MeanSize, b: &MeanSize) -> (less: bool) {
        proof {
            product_fits(a.sum, b.count, 1);
            product_fits(b.sum, a.count, 1);
        }
        (a.sum as u128 * b.count as u128) < b.sum as u128 * a.count as u128
    }
}

} // verus!
