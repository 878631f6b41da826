//! Lazy row expressions and the staged reads that they bottom out in.
//!
//! A kernel reads its input through an expression tree: leaves read staged
//! slots (a buffer, a constant, or an index counter), inner nodes zip,
//! transform, permute or repeat rows.  Each expression states which rows it
//! can produce and what row `index` is; evaluation is proved to agree.
use core::marker::PhantomData;
use vstd::arithmetic::div_mod::{
    lemma_add_mod_noop, lemma_mod_twice, lemma_mul_mod_noop_left, lemma_sub_mod_noop,
};
use vstd::prelude::*;

use crate::error::Error;
use crate::ops::{IndexedBinaryOp, IndexedUnaryOp, ReductionOp, UnaryOp};

verus! {

/// `x` reduced modulo 2^32, as device `u32` arithmetic wraps.
pub open spec fn wrap32(x: int) -> u32 {
    (x % 0x1_0000_0000) as u32
}

proof fn lemma_wrap32_small(x: int)
    requires
        0 <= x < 0x1_0000_0000,
    ensures
        wrap32(x) == x,
{
    vstd::arithmetic::div_mod::lemma_small_mod(x as nat, 0x1_0000_0000);
}

proof fn lemma_index_truncates(index: usize)
    ensures
        index as u32 == index as int % 0x1_0000_0000,
{
    assert(index as u32 == (index as u64) % 0x1_0000_0000u64) by (bit_vector);
}

proof fn lemma_wrapping_add(a: u32, b: u32)
    ensures
        a.wrapping_add(b) == wrap32(a + b),
{
    if a + b > u32::MAX {
        vstd::arithmetic::div_mod::lemma_fundamental_div_mod_converse(
            a + b,
            0x1_0000_0000,
            1,
            a + b - 0x1_0000_0000,
        );
    } else {
        lemma_wrap32_small(a + b);
    }
}

proof fn lemma_wrapping_sub(a: u32, b: u32)
    ensures
        a.wrapping_sub(b) == wrap32(a - b),
{
    if a - b < 0 {
        vstd::arithmetic::div_mod::lemma_fundamental_div_mod_converse(
            a - b,
            0x1_0000_0000,
            -1,
            a - b + 0x1_0000_0000,
        );
    } else {
        lemma_wrap32_small(a - b);
    }
}

/// Wrapping is compatible with addition: reducing an operand first does not
/// change the reduced sum.
proof fn lemma_wrap32_add(x: int, y: int)
    ensures
        wrap32(wrap32(x) + y) == wrap32(x + y),
        wrap32(x + wrap32(y)) == wrap32(x + y),
{
    lemma_add_mod_noop(x, y, 0x1_0000_0000);
    lemma_add_mod_noop(x % 0x1_0000_0000, y, 0x1_0000_0000);
    lemma_mod_twice(x, 0x1_0000_0000);
    lemma_add_mod_noop(x, y % 0x1_0000_0000, 0x1_0000_0000);
    lemma_mod_twice(y, 0x1_0000_0000);
}

proof fn lemma_wrap32_sub(x: int, y: int)
    ensures
        wrap32(wrap32(x) - y) == wrap32(x - y),
{
    lemma_sub_mod_noop(x, y, 0x1_0000_0000);
    lemma_sub_mod_noop(x % 0x1_0000_0000, y, 0x1_0000_0000);
    lemma_mod_twice(x, 0x1_0000_0000);
}

proof fn lemma_wrap32_mul(x: int, y: int)
    ensures
        wrap32(wrap32(x) * y) == wrap32(x * y),
{
    lemma_mul_mod_noop_left(x, y, 0x1_0000_0000);
}

/// How a staged slot is read at a logical index.
pub trait ReadMode<T> {
    /// Whether `read` is defined for this slot, offset and index.
    spec fn readable(slot: Seq<T>, offset: u32, index: usize) -> bool;

    /// The value that `read` returns.
    spec fn value_at(slot: Seq<T>, offset: u32, index: usize) -> T;

    fn read(slot: &[T], offset: u32, index: usize) -> (r: T)
        requires
            Self::readable(slot@, offset, index),
        ensures
            r == Self::value_at(slot@, offset, index),
    ;
}

/// Reads one element at `offset + index`.
pub struct Direct;

/// Reads the single staged value in a constant slot.
pub struct Broadcast;

/// Reads a staged start and adds the logical index.
pub struct Count;

/// Reads a staged start and advances by a staged stride.
pub struct StrideCount;

/// Reads `(start + index) / divisor % modulus`.
pub struct DivModCount;

/// Reads a staged final index and subtracts the logical index.
pub struct ReverseCount;

impl<T: Copy> ReadMode<T> for Direct {
    open spec fn readable(slot: Seq<T>, offset: u32, index: usize) -> bool {
        offset + index < slot.len()
    }

    open spec fn value_at(slot: Seq<T>, offset: u32, index: usize) -> T {
        slot[offset + index]
    }

    fn read(slot: &[T], offset: u32, index: usize) -> (r: T) {
        let len = slot.len();
        assert(offset + index < len);
        slot[offset as usize + index]
    }
}

impl<T: Copy> ReadMode<T> for Broadcast {
    open spec fn readable(slot: Seq<T>, offset: u32, index: usize) -> bool {
        slot.len() >= 1
    }

    open spec fn value_at(slot: Seq<T>, offset: u32, index: usize) -> T {
        slot[0]
    }

    fn read(slot: &[T], offset: u32, index: usize) -> (r: T) {
        slot[0]
    }
}

impl ReadMode<u32> for Count {
    open spec fn readable(slot: Seq<u32>, offset: u32, index: usize) -> bool {
        slot.len() >= 1
    }

    open spec fn value_at(slot: Seq<u32>, offset: u32, index: usize) -> u32 {
        wrap32(slot[0] + offset + index)
    }

    fn read(slot: &[u32], offset: u32, index: usize) -> (r: u32) {
        let start = slot[0];
        proof {
            lemma_index_truncates(index);
            lemma_wrapping_add(start, offset);
            lemma_wrapping_add(start.wrapping_add(offset), index as u32);
            lemma_wrap32_add(start + offset, index as int);
            lemma_wrap32_add(start + offset, index as int % 0x1_0000_0000);
            lemma_mod_twice(index as int, 0x1_0000_0000);
        }
        start.wrapping_add(offset).wrapping_add(index as u32)
    }
}

impl ReadMode<u32> for StrideCount {
    open spec fn readable(slot: Seq<u32>, offset: u32, index: usize) -> bool {
        slot.len() >= 2
    }

    open spec fn value_at(slot: Seq<u32>, offset: u32, index: usize) -> u32 {
        wrap32(slot[0] + (offset + index) * slot[1])
    }

    fn read(slot: &[u32], offset: u32, index: usize) -> (r: u32) {
        let start = slot[0];
        let stride = slot[1];
        let position = offset.wrapping_add(index as u32);
        proof {
            lemma_index_truncates(index);
            lemma_wrapping_add(offset, index as u32);
            lemma_wrap32_add(offset as int, index as int);
            lemma_mod_twice(index as int, 0x1_0000_0000);
            assert(position == wrap32(offset + index)) by {
                lemma_add_mod_noop(offset as int, index as int, 0x1_0000_0000);
                lemma_add_mod_noop(offset as int, index as int % 0x1_0000_0000, 0x1_0000_0000);
            }
        }
        let scaled = position.wrapping_mul(stride);
        proof {
            assert(scaled == wrap32(position * stride));
            lemma_wrap32_mul(offset + index, stride as int);
            lemma_wrapping_add(start, scaled);
            lemma_wrap32_add(start as int, (offset + index) * stride);
        }
        start.wrapping_add(scaled)
    }
}

impl ReadMode<u32> for DivModCount {
    open spec fn readable(slot: Seq<u32>, offset: u32, index: usize) -> bool {
        slot.len() >= 3 && slot[1] != 0 && slot[2] != 0
    }

    open spec fn value_at(slot: Seq<u32>, offset: u32, index: usize) -> u32 {
        (wrap32(slot[0] + offset + index) / slot[1] % slot[2]) as u32
    }

    fn read(slot: &[u32], offset: u32, index: usize) -> (r: u32) {
        let position = <Count as ReadMode<u32>>::read(slot, offset, index);
        position / slot[1] % slot[2]
    }
}

impl ReadMode<u32> for ReverseCount {
    open spec fn readable(slot: Seq<u32>, offset: u32, index: usize) -> bool {
        slot.len() >= 1
    }

    open spec fn value_at(slot: Seq<u32>, offset: u32, index: usize) -> u32 {
        wrap32(slot[0] - offset - index)
    }

    fn read(slot: &[u32], offset: u32, index: usize) -> (r: u32) {
        let last = slot[0];
        proof {
            lemma_index_truncates(index);
            lemma_wrapping_sub(last, offset);
            lemma_wrapping_sub(last.wrapping_sub(offset), index as u32);
            lemma_wrap32_sub(last - offset, index as int % 0x1_0000_0000);
            lemma_sub_mod_noop(last - offset, index as int, 0x1_0000_0000);
            lemma_sub_mod_noop(last - offset, index as int % 0x1_0000_0000, 0x1_0000_0000);
            lemma_mod_twice(index as int, 0x1_0000_0000);
        }
        last.wrapping_sub(offset).wrapping_sub(index as u32)
    }
}


/// An expression that yields one row per logical index.
pub trait DeviceExpr<Item> {
    /// Whether row `index` can be evaluated.
    spec fn defined_at(&self, index: int) -> bool;

    /// Row `index` of the expression.
    spec fn item_at(&self, index: int) -> Item;

    fn eval(&self, index: usize) -> (r: Item)
        requires
            self.defined_at(index as int),
        ensures
            r == self.item_at(index as int),
    ;
}

/// A leaf: a staged slot read through `Mode` from `offset` on.
pub struct Slot<'a, T, Mode> {
    pub slot: &'a [T],
    pub offset: u32,
    pub mode: PhantomData<Mode>,
}

impl<'a, T, Mode: ReadMode<T>> DeviceExpr<T> for Slot<'a, T, Mode> {
    open spec fn defined_at(&self, index: int) -> bool {
        0 <= index <= usize::MAX && Mode::readable(self.slot@, self.offset, index as usize)
    }

    open spec fn item_at(&self, index: int) -> T {
        Mode::value_at(self.slot@, self.offset, index as usize)
    }

    fn eval(&self, index: usize) -> (r: T) {
        Mode::read(self.slot, self.offset, index)
    }
}

/// Counting from a staged start: row 0 at offset 0 is the start, each next
/// row is one more (wrapping at 2^32), and an offset moves the rows along.
pub proof fn lemma_count_rows(slot: Seq<u32>, offset: u32, index: usize)
    requires
        slot.len() >= 1,
        index < usize::MAX,
    ensures
        <Count as ReadMode<u32>>::value_at(slot, 0, 0) == slot[0],
        <Count as ReadMode<u32>>::value_at(slot, offset, (index + 1) as usize) as int == (
        <Count as ReadMode<u32>>::value_at(slot, offset, index) + 1) % 0x1_0000_0000,
        offset + index <= usize::MAX ==> <Count as ReadMode<u32>>::value_at(slot, offset, index)
            == <Count as ReadMode<u32>>::value_at(slot, 0, (offset + index) as usize),
{
    lemma_wrap32_small(slot[0] as int);
    lemma_wrap32_add(slot[0] + offset + index, 1);
    lemma_wrap32_small(1);
}

/// Strided counting: row 0 at offset 0 is the start, each next row adds the
/// stride (wrapping at 2^32), and an offset moves the rows along.
pub proof fn lemma_stride_count_rows(slot: Seq<u32>, offset: u32, index: usize)
    requires
        slot.len() >= 2,
        index < usize::MAX,
    ensures
        <StrideCount as ReadMode<u32>>::value_at(slot, 0, 0) == slot[0],
        <StrideCount as ReadMode<u32>>::value_at(slot, offset, (index + 1) as usize) as int == (
        <StrideCount as ReadMode<u32>>::value_at(slot, offset, index) + slot[1]) % 0x1_0000_0000,
        offset + index <= usize::MAX ==> <StrideCount as ReadMode<u32>>::value_at(slot, offset, index)
            == <StrideCount as ReadMode<u32>>::value_at(slot, 0, (offset + index) as usize),
{
    let start = slot[0] as int;
    let stride = slot[1] as int;
    let position = offset + index;
    let x = start + position * stride;
    assert(start + (position + 1) * stride == x + stride) by (nonlinear_arith)
        requires
            x == start + position * stride,
    ;
    lemma_wrap32_small(slot[0] as int);
    lemma_wrap32_add(x, slot[1] as int);
    lemma_wrap32_small(slot[1] as int);
}

/// Counting down from a staged last value: row 0 at offset 0 is that value,
/// each next row is one less (wrapping at 2^32), and an offset moves the
/// rows along.
pub proof fn lemma_reverse_count_rows(slot: Seq<u32>, offset: u32, index: usize)
    requires
        slot.len() >= 1,
        index < usize::MAX,
    ensures
        <ReverseCount as ReadMode<u32>>::value_at(slot, 0, 0) == slot[0],
        <ReverseCount as ReadMode<u32>>::value_at(slot, offset, (index + 1) as usize) as int == (
        <ReverseCount as ReadMode<u32>>::value_at(slot, offset, index) - 1) % 0x1_0000_0000,
        offset + index <= usize::MAX ==> <ReverseCount as ReadMode<u32>>::value_at(slot, offset, index)
            == <ReverseCount as ReadMode<u32>>::value_at(slot, 0, (offset + index) as usize),
{
    lemma_wrap32_small(slot[0] as int);
    lemma_wrap32_sub(slot[0] - offset - index, 1);
    lemma_sub_mod_noop(slot[0] - offset - index, 1, 0x1_0000_0000);
    lemma_mod_twice(slot[0] - offset - index, 0x1_0000_0000);
}

/// Div-mod counting: the counted position `p` (start + offset + index,
/// wrapping at 2^32) lies in run `k` of `divisor` consecutive positions
/// exactly when `divisor * k <= p < divisor * (k + 1)`, and every row of run
/// `k` reads `k` modulo `modulus`.
pub proof fn lemma_div_mod_count_rows(slot: Seq<u32>, offset: u32, index: usize, k: int)
    requires
        slot.len() >= 3,
        slot[1] != 0,
        slot[2] != 0,
        0 <= k,
        slot[1] * k <= (slot[0] + offset + index) % 0x1_0000_0000 < slot[1] * (k + 1),
    ensures
        <DivModCount as ReadMode<u32>>::value_at(slot, offset, index) == k % (slot[2] as int),
{
    let p = (slot[0] + offset + index) % 0x1_0000_0000;
    let d = slot[1] as int;
    assert(d * (k + 1) == d * k + d && k * d == d * k) by (nonlinear_arith);
    vstd::arithmetic::div_mod::lemma_fundamental_div_mod_converse(p, d, k, p - d * k);
    assert(p / d == k);
}

/// A broadcast reads its one staged value on every row.
pub proof fn lemma_broadcast_rows<T: Copy>(slot: Seq<T>, offset: u32, index: usize)
    requires
        slot.len() >= 1,
    ensures
        <Broadcast as ReadMode<T>>::value_at(slot, offset, index) == slot[0],
{
}

/// Pairs the rows of two expressions.
pub struct ZipExpr<Left, Right, LeftItem, RightItem> {
    pub left: Left,
    pub right: Right,
    pub items: PhantomData<(LeftItem, RightItem)>,
}

impl<Left, Right, LeftItem, RightItem> DeviceExpr<(LeftItem, RightItem)> for ZipExpr<
    Left,
    Right,
    LeftItem,
    RightItem,
> where Left: DeviceExpr<LeftItem>, Right: DeviceExpr<RightItem> {
    open spec fn defined_at(&self, index: int) -> bool {
        self.left.defined_at(index) && self.right.defined_at(index)
    }

    open spec fn item_at(&self, index: int) -> (LeftItem, RightItem) {
        (self.left.item_at(index), self.right.item_at(index))
    }

    fn eval(&self, index: usize) -> (r: (LeftItem, RightItem)) {
        (self.left.eval(index), self.right.eval(index))
    }
}

/// Applies `Op` to every row of its input.
pub struct TransformExpr<InputExpr, InputItem, Op> {
    pub input: InputExpr,
    pub items: PhantomData<(InputItem, Op)>,
}

impl<InputExpr, InputItem, Op> DeviceExpr<Op::Output> for TransformExpr<
    InputExpr,
    InputItem,
    Op,
> where InputExpr: DeviceExpr<InputItem>, Op: UnaryOp<InputItem> {
    open spec fn defined_at(&self, index: int) -> bool {
        self.input.defined_at(index)
    }

    open spec fn item_at(&self, index: int) -> Op::Output {
        Op::map(self.input.item_at(index))
    }

    fn eval(&self, index: usize) -> (r: Op::Output) {
        Op::apply(self.input.eval(index))
    }
}

/// Applies `Op` to every row of its input together with the row's index.
pub struct IndexedTransformExpr<InputExpr, InputItem, Op> {
    pub input: InputExpr,
    pub items: PhantomData<(InputItem, Op)>,
}

impl<InputExpr, InputItem, Op> DeviceExpr<Op::Output> for IndexedTransformExpr<
    InputExpr,
    InputItem,
    Op,
> where InputExpr: DeviceExpr<InputItem>, Op: IndexedUnaryOp<InputItem> {
    open spec fn defined_at(&self, index: int) -> bool {
        self.input.defined_at(index)
    }

    open spec fn item_at(&self, index: int) -> Op::Output {
        Op::map_at(self.input.item_at(index), index as u32)
    }

    fn eval(&self, index: usize) -> (r: Op::Output) {
        Op::apply(self.input.eval(index), index as u32)
    }
}

/// The row before `index`, the first row standing before itself.
pub open spec fn previous_index(index: int) -> int {
    if index == 0 {
        0
    } else {
        index - 1
    }
}

/// Applies `Op` to every row, its predecessor and its index.
pub struct AdjacentIndexedTransformExpr<InputExpr, InputItem, Op> {
    pub input: InputExpr,
    pub items: PhantomData<(InputItem, Op)>,
}

impl<InputExpr, InputItem, Op> DeviceExpr<Op::Output> for AdjacentIndexedTransformExpr<
    InputExpr,
    InputItem,
    Op,
> where InputExpr: DeviceExpr<InputItem>, Op: IndexedBinaryOp<InputItem> {
    open spec fn defined_at(&self, index: int) -> bool {
        self.input.defined_at(previous_index(index)) && self.input.defined_at(index)
    }

    open spec fn item_at(&self, index: int) -> Op::Output {
        Op::map_at(
            self.input.item_at(previous_index(index)),
            self.input.item_at(index),
            index as u32,
        )
    }

    fn eval(&self, index: usize) -> (r: Op::Output) {
        let previous = if index == 0 {
            0
        } else {
            index - 1
        };
        let before = self.input.eval(previous);
        let current = self.input.eval(index);
        Op::apply(before, current, index as u32)
    }
}

/// Adjacent combination: row 0 is kept, row `i` becomes
/// `input[i - 1] op input[i]`.
pub struct AdjacentExpr<InputExpr, Item, Op> {
    pub input: InputExpr,
    pub items: PhantomData<(Item, Op)>,
}

impl<InputExpr, Item, Op> DeviceExpr<Item> for AdjacentExpr<InputExpr, Item, Op> where
    InputExpr: DeviceExpr<Item>,
    Op: ReductionOp<Item>,
 {
    open spec fn defined_at(&self, index: int) -> bool {
        self.input.defined_at(previous_index(index)) && self.input.defined_at(index)
    }

    open spec fn item_at(&self, index: int) -> Item {
        if index == 0 {
            self.input.item_at(0)
        } else {
            Op::combine(self.input.item_at(index - 1), self.input.item_at(index))
        }
    }

    fn eval(&self, index: usize) -> (r: Item) {
        if index == 0 {
            self.input.eval(0)
        } else {
            let before = self.input.eval(index - 1);
            let current = self.input.eval(index);
            Op::apply(before, current)
        }
    }
}

/// Gathers `values[indices[index]]`.
pub struct PermuteExpr<ValuesExpr, IndicesExpr> {
    pub values: ValuesExpr,
    pub indices: IndicesExpr,
}

impl<ValuesExpr, IndicesExpr, Item> DeviceExpr<Item> for PermuteExpr<ValuesExpr, IndicesExpr> where
    ValuesExpr: DeviceExpr<Item>,
    IndicesExpr: DeviceExpr<u32>,
 {
    open spec fn defined_at(&self, index: int) -> bool {
        self.indices.defined_at(index) && self.values.defined_at(
            self.indices.item_at(index) as int,
        )
    }

    open spec fn item_at(&self, index: int) -> Item {
        self.values.item_at(self.indices.item_at(index) as int)
    }

    fn eval(&self, index: usize) -> (r: Item) {
        let gathered = self.indices.eval(index);
        self.values.eval(gathered as usize)
    }
}

/// Repeats the first row of its input at every index.
pub struct RepeatExpr<InputExpr> {
    pub input: InputExpr,
}

impl<InputExpr, Item> DeviceExpr<Item> for RepeatExpr<InputExpr> where
    InputExpr: DeviceExpr<Item>,
 {
    open spec fn defined_at(&self, index: int) -> bool {
        self.input.defined_at(0)
    }

    open spec fn item_at(&self, index: int) -> Item {
        self.input.item_at(0)
    }

    fn eval(&self, index: usize) -> (r: Item) {
        self.input.eval(0)
    }
}


/// Bounds of one row of an offset-delimited value stream: the values at
/// `start..end`.
pub struct Segment<Item> {
    pub start: u32,
    pub end: u32,
    pub item: PhantomData<Item>,
}

/// Row `index` is the segment between `offsets[index]` and
/// `offsets[index + 1]` of `values`.
pub struct SegmentIteratorExpr<ValuesExpr, OffsetsExpr> {
    pub values: ValuesExpr,
    pub offsets: OffsetsExpr,
}

impl<ValuesExpr, OffsetsExpr, Item> DeviceExpr<Segment<Item>> for SegmentIteratorExpr<
    ValuesExpr,
    OffsetsExpr,
> where ValuesExpr: DeviceExpr<Item>, OffsetsExpr: DeviceExpr<u32> {
    open spec fn defined_at(&self, index: int) -> bool {
        index < usize::MAX && self.offsets.defined_at(index) && self.offsets.defined_at(index + 1)
    }

    open spec fn item_at(&self, index: int) -> Segment<Item> {
        Segment {
            start: self.offsets.item_at(index),
            end: self.offsets.item_at(index + 1),
            item: PhantomData,
        }
    }

    fn eval(&self, index: usize) -> (r: Segment<Item>) {
        let start = self.offsets.eval(index);
        let end = self.offsets.eval(index + 1);
        Segment { start, end, item: PhantomData }
    }
}

impl<ValuesExpr, OffsetsExpr> SegmentIteratorExpr<ValuesExpr, OffsetsExpr> {
    /// Reads value `position` of `segment`, counted from its start.
    pub fn read_segment<Item>(&self, segment: &Segment<Item>, position: u32) -> (r: Item) where
        ValuesExpr: DeviceExpr<Item>,
        requires
            segment.start + position < segment.end,
            self.values.defined_at(segment.start + position),
        ensures
            r == self.values.item_at(segment.start + position),
    {
        self.values.eval(segment.start as usize + position as usize)
    }
}

/// Writes rows `0..len` of `input` into `output`, which must hold exactly
/// `len` rows.
pub fn materialize<Item, InputExpr: DeviceExpr<Item>>(
    input: &InputExpr,
    len: usize,
    output: &mut Vec<Item>,
) -> (r: Result<(), Error>)
    requires
        forall|i: int| 0 <= i < len ==> input.defined_at(i),
    ensures
        old(output).len() != len ==> r == Err::<(), Error>(
            Error::LengthMismatch { left: len, right: old(output).len() },
        ),
        old(output).len() == len ==> r is Ok,
        r is Ok ==> final(output).len() == len && forall|i: int|
            0 <= i < len ==> final(output)[i] == input.item_at(i),
        r is Err ==> final(output)@ == old(output)@,
{
    if output.len() != len {
        return Err(Error::LengthMismatch { left: len, right: output.len() });
    }
    let mut i: usize = 0;
    while i < len
        invariant
            i <= len,
            output.len() == len,
            forall|k: int| 0 <= k < len ==> input.defined_at(k),
            forall|k: int| 0 <= k < i ==> output[k] == input.item_at(k),
        decreases len - i,
    {
        let item = input.eval(i);
        output.set(i, item);
        i = i + 1;
    }
    Ok(())
}

/// Row `i` of the adjacent combination of `s` under `Op`.
pub open spec fn adjacent_value<T, Op: ReductionOp<T>>(s: Seq<T>, i: int) -> T {
    if i == 0 {
        s[0]
    } else {
        Op::combine(s[i - 1], s[i])
    }
}

/// Writes the adjacent combination of `input` into `output`: row 0 is
/// copied, row `i` becomes `input[i - 1] op input[i]`.
pub fn adjacent_difference<T: Copy, Op: ReductionOp<T>>(
    input: &Vec<T>,
    _op: Op,
    output: &mut Vec<T>,
) -> (r: Result<(), Error>)
    ensures
        old(output).len() != input.len() ==> r == Err::<(), Error>(
            Error::LengthMismatch { left: input.len(), right: old(output).len() },
        ),
        old(output).len() == input.len() ==> r is Ok,
        r is Ok ==> final(output).len() == input.len() && forall|i: int|
            0 <= i < input.len() ==> final(output)[i] == adjacent_value::<T, Op>(input@, i),
        r is Err ==> final(output)@ == old(output)@,
{
    let column: Slot<T, Direct> = Slot { slot: input.as_slice(), offset: 0, mode: PhantomData };
    let expr: AdjacentExpr<Slot<T, Direct>, T, Op> = AdjacentExpr {
        input: column,
        items: PhantomData,
    };
    let r = materialize(&expr, input.len(), output);
    proof {
        assert forall|i: int| 0 <= i < input.len() implies #[trigger] expr.item_at(i)
            == adjacent_value::<T, Op>(input@, i) by {
            if i > 0 {
                assert(expr.input.item_at(i - 1) == input@[i - 1]);
            }
            assert(expr.input.item_at(i) == input@[i]);
        }
        if r is Ok {
            assert forall|i: int| 0 <= i < input.len() implies output[i] == adjacent_value::<
                T,
                Op,
            >(input@, i) by {
                assert(output[i] == expr.item_at(i));
            }
        }
    }
    r
}

} // verus!
