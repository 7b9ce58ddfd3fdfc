//! Estimates of retained memory.
//!
//! Saturating arithmetic deliberately turns an unrepresentable estimate into
//! `usize::MAX`, which causes bounded runtimes to reject the value.
use crate::scalar::Scalar;
use crate::types::{PreparedData, PreparedLineChunk, PreparedText, SegmentKind};
use vstd::layout::size_of;
use vstd::prelude::*;

verus! {

/// Whether a vector with so many items can have a capacity.
pub open spec fn can_hold<T>(capacity: usize, length: nat) -> bool {
    capacity >= length && capacity * size_of::<T>() <= isize::MAX
}

/// `Vec::capacity` of the standard library.
///
/// Claimed of it: it is no smaller than the length, and the items that it has
/// room for take up no more than `isize::MAX` bytes. How much larger it is is the
/// allocator's choice and is left open.
#[verifier::external_body]
pub(crate) fn capacity_of<T>(items: &Vec<T>) -> (r: usize)
    ensures
        can_hold::<T>(r, items@.len()),
{
    items.capacity()
}

/// The product, or `usize::MAX` where it cannot be represented.
pub(crate) fn saturating_product(a: usize, b: usize) -> (r: usize)
    ensures
        r == if a * b <= usize::MAX {
            a * b
        } else {
            usize::MAX as int
        },
{
    match a.checked_mul(b) {
        Some(product) => product,
        None => usize::MAX,
    }
}

/// A number of bytes, or `usize::MAX` where it cannot be represented.
pub open spec fn capped(bytes: int) -> usize {
    if bytes <= usize::MAX {
        bytes as usize
    } else {
        usize::MAX
    }
}

/// How many items the vectors of prepared text have room for.
pub struct Capacities {
    pub widths: usize,
    pub line_end_fit_advances: usize,
    pub line_end_paint_advances: usize,
    pub kinds: usize,
    pub breakable_widths: usize,
    /// One for each segment, zero where it has no grapheme widths.
    pub grapheme_widths: Vec<usize>,
    pub chunks: usize,
}

/// Whether capacities can be those of prepared text.
pub open spec fn have_room<W>(capacities: Capacities, data: PreparedData<W>) -> bool {
    &&& can_hold::<W>(capacities.widths, data.widths@.len())
    &&& can_hold::<W>(capacities.line_end_fit_advances, data.line_end_fit_advances@.len())
    &&& can_hold::<W>(capacities.line_end_paint_advances, data.line_end_paint_advances@.len())
    &&& can_hold::<SegmentKind>(capacities.kinds, data.kinds@.len())
    &&& can_hold::<Option<Vec<W>>>(capacities.breakable_widths, data.breakable_widths@.len())
    &&& can_hold::<PreparedLineChunk>(capacities.chunks, data.chunks@.len())
    &&& capacities.grapheme_widths@.len() == data.breakable_widths@.len()
    &&& forall|i: int|
        0 <= i < data.breakable_widths@.len() ==> match #[trigger] data.breakable_widths@[i] {
            Some(widths) => can_hold::<W>(capacities.grapheme_widths@[i], widths@.len()),
            None => capacities.grapheme_widths@[i] == 0,
        }
}

/// The sum of the first `count` counts.
pub open spec fn total_of(counts: Seq<usize>, count: int) -> nat
    decreases count,
{
    if count <= 0 {
        0
    } else {
        total_of(counts, count - 1) + counts[count - 1] as nat
    }
}

/// The heap memory of prepared text whose vectors have these capacities.
pub open spec fn heap_bytes_with<W>(capacities: Capacities) -> int {
    size_of::<PreparedData<W>>() + capacities.widths * size_of::<W>()
        + capacities.line_end_fit_advances * size_of::<W>() + capacities.line_end_paint_advances
        * size_of::<W>() + capacities.kinds * size_of::<SegmentKind>()
        + capacities.breakable_widths * size_of::<Option<Vec<W>>>() + total_of(
        capacities.grapheme_widths@,
        capacities.grapheme_widths@.len() as int,
    ) * size_of::<W>() + capacities.chunks * size_of::<PreparedLineChunk>()
}

/// Read the capacities of prepared text.
fn capacities_of<W: Scalar>(data: &PreparedData<W>) -> (r: Capacities)
    ensures
        have_room(r, *data),
{
    let mut grapheme_widths: Vec<usize> = Vec::new();
    let mut index: usize = 0;
    while index < data.breakable_widths.len()
        invariant
            index <= data.breakable_widths@.len(),
            grapheme_widths@.len() == index,
            forall|i: int|
                0 <= i < index ==> match #[trigger] data.breakable_widths@[i] {
                    Some(widths) => can_hold::<W>(grapheme_widths@[i], widths@.len()),
                    None => grapheme_widths@[i] == 0,
                },
        decreases data.breakable_widths@.len() - index,
    {
        let capacity: usize = match &data.breakable_widths[index] {
            Some(widths) => capacity_of(widths),
            None => 0,
        };
        grapheme_widths.push(capacity);
        index += 1;
    }
    Capacities {
        widths: capacity_of(&data.widths),
        line_end_fit_advances: capacity_of(&data.line_end_fit_advances),
        line_end_paint_advances: capacity_of(&data.line_end_paint_advances),
        kinds: capacity_of(&data.kinds),
        breakable_widths: capacity_of(&data.breakable_widths),
        grapheme_widths,
        chunks: capacity_of(&data.chunks),
    }
}

/// Add the memory of `count` items of `size` bytes.
fn charge(bytes: usize, count: usize, size: usize, Ghost(exact): Ghost<int>) -> (r: usize)
    requires
        exact >= 0,
        bytes == capped(exact),
    ensures
        r == capped(exact + count * size),
        count * size >= 0,
{
    proof {
        vstd::arithmetic::mul::lemma_mul_nonnegative(count as int, size as int);
    }
    bytes.saturating_add(saturating_product(count, size))
}

/// The heap memory of prepared text whose vectors have these capacities, or
/// `usize::MAX` where it cannot be represented.
#[must_use]
pub fn estimated_bytes_with<W: Scalar>(capacities: &Capacities) -> (r: usize)
    ensures
        r == capped(heap_bytes_with::<W>(*capacities)),
{
    let unit: usize = core::mem::size_of::<W>();
    let bytes: usize = core::mem::size_of::<PreparedData<W>>();
    let ghost exact: int = size_of::<PreparedData<W>>() as int;
    let bytes: usize = charge(bytes, capacities.widths, unit, Ghost(exact));
    let ghost exact: int = exact + capacities.widths * size_of::<W>();
    let bytes: usize = charge(bytes, capacities.line_end_fit_advances, unit, Ghost(exact));
    let ghost exact: int = exact + capacities.line_end_fit_advances * size_of::<W>();
    let bytes: usize = charge(bytes, capacities.line_end_paint_advances, unit, Ghost(exact));
    let ghost exact: int = exact + capacities.line_end_paint_advances * size_of::<W>();
    let bytes: usize = charge(
        bytes,
        capacities.kinds,
        core::mem::size_of::<SegmentKind>(),
        Ghost(exact),
    );
    let ghost exact: int = exact + capacities.kinds * size_of::<SegmentKind>();
    let mut bytes: usize = charge(
        bytes,
        capacities.breakable_widths,
        core::mem::size_of::<Option<Vec<W>>>(),
        Ghost(exact),
    );
    let ghost arrays: int = exact + capacities.breakable_widths * size_of::<Option<Vec<W>>>();
    let mut index: usize = 0;
    proof {
        assert(total_of(capacities.grapheme_widths@, 0) * size_of::<W>() == 0) by (nonlinear_arith)
            requires
                total_of(capacities.grapheme_widths@, 0) == 0,
        ;
    }
    while index < capacities.grapheme_widths.len()
        invariant
            index <= capacities.grapheme_widths@.len(),
            unit == size_of::<W>(),
            arrays >= 0,
            bytes == capped(
                arrays + total_of(capacities.grapheme_widths@, index as int) * size_of::<W>(),
            ),
        decreases capacities.grapheme_widths@.len() - index,
    {
        let ghost so_far: int = arrays + total_of(capacities.grapheme_widths@, index as int)
            * size_of::<W>();
        proof {
            vstd::arithmetic::mul::lemma_mul_nonnegative(
                total_of(capacities.grapheme_widths@, index as int) as int,
                size_of::<W>() as int,
            );
            vstd::arithmetic::mul::lemma_mul_is_distributive_add_other_way(
                size_of::<W>() as int,
                total_of(capacities.grapheme_widths@, index as int) as int,
                capacities.grapheme_widths@[index as int] as int,
            );
        }
        bytes = charge(bytes, capacities.grapheme_widths[index], unit, Ghost(so_far));
        index += 1;
    }
    let ghost exact: int = arrays + total_of(
        capacities.grapheme_widths@,
        capacities.grapheme_widths@.len() as int,
    ) * size_of::<W>();
    charge(bytes, capacities.chunks, core::mem::size_of::<PreparedLineChunk>(), Ghost(exact))
}

/// Whether a number of bytes is an estimate for prepared text: its heap memory
/// under capacities that its vectors can have.
pub open spec fn estimates<W>(estimate: usize, data: PreparedData<W>) -> bool {
    exists|capacities: Capacities| #[trigger]
        have_room(capacities, data) && estimate == capped(heap_bytes_with::<W>(capacities))
}

/// Conservative size of heap allocations owned by a prepared value.
#[must_use]
pub fn estimated_heap_bytes<W: Scalar>(prepared: &PreparedText<W>) -> (r: usize)
    ensures
        estimates(r, prepared@),
{
    let capacities = capacities_of(prepared.data());
    proof {
        assert(have_room(capacities, prepared@));
    }
    estimated_bytes_with::<W>(&capacities)
}

} // verus!
