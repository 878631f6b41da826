//! Combining operations that scans and reductions are parameterised by.
use vstd::arithmetic::div_mod::{
    lemma_add_mod_noop, lemma_mod_bound, lemma_mod_twice, lemma_mul_mod_noop_left,
    lemma_mul_mod_noop_right,
};
use vstd::prelude::*;

verus! {

/// An associative binary operation on items.
///
/// Block-parallel scans and reductions regroup the operands freely, so an
/// implementation proves associativity; the operands are never reordered.
pub trait ReductionOp<T> {
    /// What `apply` computes.
    spec fn combine(lhs: T, rhs: T) -> T;

    /// Regrouping operands leaves the result unchanged.
    proof fn lemma_associative(a: T, b: T, c: T)
        ensures
            Self::combine(Self::combine(a, b), c) == Self::combine(a, Self::combine(b, c)),
    ;

    fn apply(lhs: T, rhs: T) -> (r: T)
        ensures
            r == Self::combine(lhs, rhs),
    ;
}

/// Sum of two `u32` values modulo 2^32, as device arithmetic wraps.
pub open spec fn wrapping_sum(a: u32, b: u32) -> u32 {
    if a + b > u32::MAX {
        (a + b - 0x1_0000_0000) as u32
    } else {
        (a + b) as u32
    }
}

/// Wrapping `u32` addition.
pub struct Sum;

impl ReductionOp<u32> for Sum {
    open spec fn combine(lhs: u32, rhs: u32) -> u32 {
        wrapping_sum(lhs, rhs)
    }

    proof fn lemma_associative(a: u32, b: u32, c: u32) {
    }

    fn apply(lhs: u32, rhs: u32) -> (r: u32) {
        lhs.wrapping_add(rhs)
    }
}

/// Keeps the left operand: a scan with it repeats the first row.
pub struct TakeLeft;

impl ReductionOp<u32> for TakeLeft {
    open spec fn combine(lhs: u32, rhs: u32) -> u32 {
        lhs
    }

    proof fn lemma_associative(a: u32, b: u32, c: u32) {
    }

    fn apply(lhs: u32, rhs: u32) -> (r: u32) {
        lhs
    }
}

/// Componentwise wrapping addition of pairs.
pub struct SumPair;

impl ReductionOp<(u32, u32)> for SumPair {
    open spec fn combine(lhs: (u32, u32), rhs: (u32, u32)) -> (u32, u32) {
        (wrapping_sum(lhs.0, rhs.0), wrapping_sum(lhs.1, rhs.1))
    }

    proof fn lemma_associative(a: (u32, u32), b: (u32, u32), c: (u32, u32)) {
    }

    fn apply(lhs: (u32, u32), rhs: (u32, u32)) -> (r: (u32, u32)) {
        (lhs.0.wrapping_add(rhs.0), lhs.1.wrapping_add(rhs.1))
    }
}


/// An associative operation whose operands also commute: the order in which
/// a device tree meets the rows does not change what it computes.
pub trait CommutativeOp<T>: ReductionOp<T> {
    proof fn lemma_commutative(a: T, b: T)
        ensures
            Self::combine(a, b) == Self::combine(b, a),
    ;
}

impl CommutativeOp<u32> for Sum {
    proof fn lemma_commutative(a: u32, b: u32) {
    }
}

impl CommutativeOp<(u32, u32)> for SumPair {
    proof fn lemma_commutative(a: (u32, u32), b: (u32, u32)) {
    }
}

/// Sum of two `u64` values modulo 2^64, as device arithmetic wraps.
pub open spec fn wrapping_sum64(a: u64, b: u64) -> u64 {
    if a + b > u64::MAX {
        (a + b - 0x1_0000_0000_0000_0000) as u64
    } else {
        (a + b) as u64
    }
}

/// Twelve `u64` columns read as one flat row.
pub type Wide = (u64, u64, u64, u64, u64, u64, u64, u64, u64, u64, u64, u64);

/// Componentwise wrapping addition of twelve-column `u64` rows.
pub struct SumWide;

impl ReductionOp<Wide> for SumWide {
    open spec fn combine(lhs: Wide, rhs: Wide) -> Wide {
        (
            wrapping_sum64(lhs.0, rhs.0),
            wrapping_sum64(lhs.1, rhs.1),
            wrapping_sum64(lhs.2, rhs.2),
            wrapping_sum64(lhs.3, rhs.3),
            wrapping_sum64(lhs.4, rhs.4),
            wrapping_sum64(lhs.5, rhs.5),
            wrapping_sum64(lhs.6, rhs.6),
            wrapping_sum64(lhs.7, rhs.7),
            wrapping_sum64(lhs.8, rhs.8),
            wrapping_sum64(lhs.9, rhs.9),
            wrapping_sum64(lhs.10, rhs.10),
            wrapping_sum64(lhs.11, rhs.11),
        )
    }

    proof fn lemma_associative(a: Wide, b: Wide, c: Wide) {
    }

    fn apply(lhs: Wide, rhs: Wide) -> (r: Wide) {
        (
            lhs.0.wrapping_add(rhs.0),
            lhs.1.wrapping_add(rhs.1),
            lhs.2.wrapping_add(rhs.2),
            lhs.3.wrapping_add(rhs.3),
            lhs.4.wrapping_add(rhs.4),
            lhs.5.wrapping_add(rhs.5),
            lhs.6.wrapping_add(rhs.6),
            lhs.7.wrapping_add(rhs.7),
            lhs.8.wrapping_add(rhs.8),
            lhs.9.wrapping_add(rhs.9),
            lhs.10.wrapping_add(rhs.10),
            lhs.11.wrapping_add(rhs.11),
        )
    }
}

impl CommutativeOp<Wide> for SumWide {
    proof fn lemma_commutative(a: Wide, b: Wide) {
    }
}

/// Seven `u32` columns read as one row.
pub type Seven = (u32, (u32, (u32, (u32, (u32, (u32, u32))))));

/// Componentwise wrapping addition of seven-column rows.
pub struct SumSeven;

impl ReductionOp<Seven> for SumSeven {
    open spec fn combine(lhs: Seven, rhs: Seven) -> Seven {
        (
            wrapping_sum(lhs.0, rhs.0),
            (
                wrapping_sum(lhs.1.0, rhs.1.0),
                (
                    wrapping_sum(lhs.1.1.0, rhs.1.1.0),
                    (
                        wrapping_sum(lhs.1.1.1.0, rhs.1.1.1.0),
                        (
                            wrapping_sum(lhs.1.1.1.1.0, rhs.1.1.1.1.0),
                            (
                                wrapping_sum(lhs.1.1.1.1.1.0, rhs.1.1.1.1.1.0),
                                wrapping_sum(lhs.1.1.1.1.1.1, rhs.1.1.1.1.1.1),
                            ),
                        ),
                    ),
                ),
            ),
        )
    }

    proof fn lemma_associative(a: Seven, b: Seven, c: Seven) {
    }

    fn apply(lhs: Seven, rhs: Seven) -> (r: Seven) {
        (
            lhs.0.wrapping_add(rhs.0),
            (
                lhs.1.0.wrapping_add(rhs.1.0),
                (
                    lhs.1.1.0.wrapping_add(rhs.1.1.0),
                    (
                        lhs.1.1.1.0.wrapping_add(rhs.1.1.1.0),
                        (
                            lhs.1.1.1.1.0.wrapping_add(rhs.1.1.1.1.0),
                            (
                                lhs.1.1.1.1.1.0.wrapping_add(rhs.1.1.1.1.1.0),
                                lhs.1.1.1.1.1.1.wrapping_add(rhs.1.1.1.1.1.1),
                            ),
                        ),
                    ),
                ),
            ),
        )
    }
}

impl CommutativeOp<Seven> for SumSeven {
    proof fn lemma_commutative(a: Seven, b: Seven) {
    }
}

/// Wrapping increment of every column of a seven-column row.
pub struct IncrementSeven;

impl UnaryOp<Seven> for IncrementSeven {
    type Output = Seven;

    open spec fn map(input: Seven) -> Seven {
        (
            wrapping_sum(input.0, 1),
            (
                wrapping_sum(input.1.0, 1),
                (
                    wrapping_sum(input.1.1.0, 1),
                    (
                        wrapping_sum(input.1.1.1.0, 1),
                        (
                            wrapping_sum(input.1.1.1.1.0, 1),
                            (wrapping_sum(input.1.1.1.1.1.0, 1), wrapping_sum(input.1.1.1.1.1.1, 1)),
                        ),
                    ),
                ),
            ),
        )
    }

    fn apply(input: Seven) -> (r: Seven) {
        (
            input.0.wrapping_add(1),
            (
                input.1.0.wrapping_add(1),
                (
                    input.1.1.0.wrapping_add(1),
                    (
                        input.1.1.1.0.wrapping_add(1),
                        (
                            input.1.1.1.1.0.wrapping_add(1),
                            (input.1.1.1.1.1.0.wrapping_add(1), input.1.1.1.1.1.1.wrapping_add(1)),
                        ),
                    ),
                ),
            ),
        )
    }
}

/// Modulus of the affine maps that [`ComposeAffine`] composes.
pub const AFFINE_MODULUS: u32 = 65521;

/// Composition of affine maps `x -> m x + o` modulo [`AFFINE_MODULUS`],
/// each pair `(m, o)` standing for one map; the left operand is applied
/// first, so the operation is associative but not commutative.
pub struct ComposeAffine;

impl ReductionOp<(u32, u32)> for ComposeAffine {
    open spec fn combine(lhs: (u32, u32), rhs: (u32, u32)) -> (u32, u32) {
        (
            ((rhs.0 * lhs.0) % (AFFINE_MODULUS as int)) as u32,
            ((rhs.0 * lhs.1 + rhs.1) % (AFFINE_MODULUS as int)) as u32,
        )
    }

    proof fn lemma_associative(a: (u32, u32), b: (u32, u32), c: (u32, u32)) {
        let m = AFFINE_MODULUS as int;
        let (a0, a1, b0, b1, c0, c1) = (a.0 as int, a.1 as int, b.0 as int, b.1 as int, c.0 as int, c.1 as int);
        // First components: both sides reduce c0 * b0 * a0.
        lemma_mul_mod_noop_right(c0, b0 * a0, m);
        lemma_mul_mod_noop_left(c0 * b0, a0, m);
        assert(c0 * (b0 * a0) == (c0 * b0) * a0) by (nonlinear_arith);
        // Second components: both sides reduce c0 * b0 * a1 + c0 * b1 + c1.
        let inner = (b0 * a1 + b1) % m;
        lemma_add_mod_noop(c0 * inner, c1, m);
        lemma_mul_mod_noop_right(c0, b0 * a1 + b1, m);
        lemma_add_mod_noop(c0 * (b0 * a1 + b1), c1, m);
        let outer0 = (c0 * b0) % m;
        let outer1 = (c0 * b1 + c1) % m;
        lemma_add_mod_noop(outer0 * a1, outer1, m);
        lemma_mul_mod_noop_left(c0 * b0, a1, m);
        lemma_mod_twice(c0 * b1 + c1, m);
        lemma_add_mod_noop((c0 * b0) * a1, c0 * b1 + c1, m);
        assert(c0 * (b0 * a1 + b1) + c1 == (c0 * b0) * a1 + (c0 * b1 + c1)) by (nonlinear_arith);
        lemma_mod_bound(c1, m);
        vstd::arithmetic::div_mod::lemma_small_mod(c1 as nat % m as nat, m as nat);
        lemma_mod_twice(c1, m);
        assert(0 <= c0 * inner) by (nonlinear_arith)
            requires
                0 <= c0,
                0 <= inner,
        ;
    }

    fn apply(lhs: (u32, u32), rhs: (u32, u32)) -> (r: (u32, u32)) {
        let m = AFFINE_MODULUS as u64;
        let (r0, l0, l1, r1) = (rhs.0 as u64, lhs.0 as u64, lhs.1 as u64, rhs.1 as u64);
        assert(r0 * l0 <= 0xffff_fffe_0000_0001 && r0 * l1 <= 0xffff_fffe_0000_0001)
            by (nonlinear_arith)
            requires
                r0 <= 0xffff_ffff,
                l0 <= 0xffff_ffff,
                l1 <= 0xffff_ffff,
        ;
        let first = (r0 * l0) % m;
        let second = (r0 * l1 + r1) % m;
        (first as u32, second as u32)
    }
}

/// A row predicate, as used by stencil-free selections.
pub trait PredicateOp<T> {
    /// Whether a row passes.
    spec fn holds(input: T) -> bool;

    fn apply(input: T) -> (r: bool)
        ensures
            r == Self::holds(input),
    ;
}

/// A row transformation.
pub trait UnaryOp<T> {
    type Output;

    /// What `apply` computes.
    spec fn map(input: T) -> Self::Output;

    fn apply(input: T) -> (r: Self::Output)
        ensures
            r == Self::map(input),
    ;
}

/// Passes rows that are not zero.
pub struct NonZero;

impl PredicateOp<u32> for NonZero {
    open spec fn holds(input: u32) -> bool {
        input != 0
    }

    fn apply(input: u32) -> (r: bool) {
        input != 0
    }
}

/// Passes even rows.
pub struct IsEven;

impl PredicateOp<u32> for IsEven {
    open spec fn holds(input: u32) -> bool {
        input % 2 == 0
    }

    fn apply(input: u32) -> (r: bool) {
        input % 2 == 0
    }
}

/// Wrapping increment of a `u32` row.
pub struct Increment;

impl UnaryOp<u32> for Increment {
    type Output = u32;

    open spec fn map(input: u32) -> u32 {
        wrapping_sum(input, 1)
    }

    fn apply(input: u32) -> (r: u32) {
        input.wrapping_add(1)
    }
}

/// A row transformation that also sees the row's logical index.
pub trait IndexedUnaryOp<T> {
    type Output;

    /// What `apply` computes for the row at `index`.
    spec fn map_at(input: T, index: u32) -> Self::Output;

    fn apply(input: T, index: u32) -> (r: Self::Output)
        ensures
            r == Self::map_at(input, index),
    ;
}

/// A transformation of a row and its predecessor that also sees the row's
/// logical index (the first row is paired with itself).
pub trait IndexedBinaryOp<T> {
    type Output;

    /// What `apply` computes for `current` at `index`, after `previous`.
    spec fn map_at(previous: T, current: T, index: u32) -> Self::Output;

    fn apply(previous: T, current: T, index: u32) -> (r: Self::Output)
        ensures
            r == Self::map_at(previous, current, index),
    ;
}

/// Adds the row's logical index to the row (wrapping).
pub struct AddIndex;

impl IndexedUnaryOp<u32> for AddIndex {
    type Output = u32;

    open spec fn map_at(input: u32, index: u32) -> u32 {
        wrapping_sum(input, index)
    }

    fn apply(input: u32, index: u32) -> (r: u32) {
        input.wrapping_add(index)
    }
}

/// The step from the previous row, keeping the first row as it is.
pub struct Step;

impl IndexedBinaryOp<u32> for Step {
    type Output = u32;

    open spec fn map_at(previous: u32, current: u32, index: u32) -> u32 {
        if index == 0 {
            current
        } else {
            current.wrapping_sub(previous)
        }
    }

    fn apply(previous: u32, current: u32, index: u32) -> (r: u32) {
        if index == 0 {
            current
        } else {
            current.wrapping_sub(previous)
        }
    }
}

/// An operation that expands each input row into a run of output rows.
pub trait ExpandOp<T> {
    type Output;

    /// Number of output rows that `input` expands into.
    spec fn expansion_len(input: T) -> u32;

    /// Output row `local_index` of the run that `input` expands into.
    spec fn expand(input: T, local_index: u32) -> Self::Output;

    fn count(input: T) -> (r: u32)
        ensures
            r == Self::expansion_len(input),
    ;

    fn generate(input: T, local_index: u32) -> (r: Self::Output)
        ensures
            r == Self::expand(input, local_index),
    ;
}

/// Expands `n` into the run `n, n + 1, ..., 2n - 1` (wrapping).
pub struct Repeat;

impl ExpandOp<u32> for Repeat {
    type Output = u32;

    open spec fn expansion_len(input: u32) -> u32 {
        input
    }

    open spec fn expand(input: u32, local_index: u32) -> u32 {
        wrapping_sum(input, local_index)
    }

    fn count(input: u32) -> (r: u32) {
        input
    }

    fn generate(input: u32, local_index: u32) -> (r: u32) {
        input.wrapping_add(local_index)
    }
}

/// Expands `n` into the run `10 n, 10 n + 1, ..., 10 n + n - 1` (wrapping).
pub struct RepeatValue;

impl ExpandOp<u32> for RepeatValue {
    type Output = u32;

    open spec fn expansion_len(input: u32) -> u32 {
        input
    }

    open spec fn expand(input: u32, local_index: u32) -> u32 {
        wrapping_sum(input.wrapping_mul(10), local_index)
    }

    fn count(input: u32) -> (r: u32) {
        input
    }

    fn generate(input: u32, local_index: u32) -> (r: u32) {
        input.wrapping_mul(10).wrapping_add(local_index)
    }
}

/// Expands `(n, v)` into the `n` pairs `(n + k, v + k)`, the second
/// component widened to `u64`.
pub struct ExpandPair;

impl ExpandOp<(u32, u32)> for ExpandPair {
    type Output = (u32, u64);

    open spec fn expansion_len(input: (u32, u32)) -> u32 {
        input.0
    }

    open spec fn expand(input: (u32, u32), local_index: u32) -> (u32, u64) {
        (wrapping_sum(input.0, local_index), (input.1 + local_index) as u64)
    }

    fn count(input: (u32, u32)) -> (r: u32) {
        input.0
    }

    fn generate(input: (u32, u32), local_index: u32) -> (r: (u32, u64)) {
        (input.0.wrapping_add(local_index), input.1 as u64 + local_index as u64)
    }
}

/// A predicate on two rows, as used by searches and comparisons.
pub trait BinaryPredicateOp<T> {
    /// Whether the pair passes.
    spec fn holds(lhs: T, rhs: T) -> bool;

    fn apply(lhs: T, rhs: T) -> (r: bool)
        ensures
            r == Self::holds(lhs, rhs),
    ;
}

/// `u32` equality.
pub struct EqualU32;

impl BinaryPredicateOp<u32> for EqualU32 {
    open spec fn holds(lhs: u32, rhs: u32) -> bool {
        lhs == rhs
    }

    fn apply(lhs: u32, rhs: u32) -> (r: bool) {
        lhs == rhs
    }
}

/// `u32` strict order.
pub struct LessU32;

impl BinaryPredicateOp<u32> for LessU32 {
    open spec fn holds(lhs: u32, rhs: u32) -> bool {
        lhs < rhs
    }

    fn apply(lhs: u32, rhs: u32) -> (r: bool) {
        lhs < rhs
    }
}

/// A strict weak order: the order that merges rely on.
pub trait StrictWeakOrder<T>: BinaryPredicateOp<T> {
    /// "Not less" is transitive: `b` not below `a` and `c` not below `b`
    /// leave `c` not below `a`.
    proof fn lemma_not_less_transitive(a: T, b: T, c: T)
        requires
            !Self::holds(b, a),
            !Self::holds(c, b),
        ensures
            !Self::holds(c, a),
    ;

    /// "Less" is asymmetric: of two rows at most one is below the other.
    proof fn lemma_asymmetric(a: T, b: T)
        requires
            Self::holds(a, b),
        ensures
            !Self::holds(b, a),
    ;
}

impl StrictWeakOrder<u32> for LessU32 {
    proof fn lemma_not_less_transitive(a: u32, b: u32, c: u32) {
    }

    proof fn lemma_asymmetric(a: u32, b: u32) {
    }
}

/// Orders rows by their first column only; rows with equal first columns
/// are tied.
pub struct LessByFirst;

impl BinaryPredicateOp<(u32, u32)> for LessByFirst {
    open spec fn holds(lhs: (u32, u32), rhs: (u32, u32)) -> bool {
        lhs.0 < rhs.0
    }

    fn apply(lhs: (u32, u32), rhs: (u32, u32)) -> (r: bool) {
        lhs.0 < rhs.0
    }
}

impl BinaryPredicateOp<(u32, u32, u32)> for LessByFirst {
    open spec fn holds(lhs: (u32, u32, u32), rhs: (u32, u32, u32)) -> bool {
        lhs.0 < rhs.0
    }

    fn apply(lhs: (u32, u32, u32), rhs: (u32, u32, u32)) -> (r: bool) {
        lhs.0 < rhs.0
    }
}

impl StrictWeakOrder<(u32, u32, u32)> for LessByFirst {
    proof fn lemma_not_less_transitive(a: (u32, u32, u32), b: (u32, u32, u32), c: (u32, u32, u32)) {
    }

    proof fn lemma_asymmetric(a: (u32, u32, u32), b: (u32, u32, u32)) {
    }
}

impl StrictWeakOrder<(u32, u32)> for LessByFirst {
    proof fn lemma_not_less_transitive(a: (u32, u32), b: (u32, u32), c: (u32, u32)) {
    }

    proof fn lemma_asymmetric(a: (u32, u32), b: (u32, u32)) {
    }
}

} // verus!
