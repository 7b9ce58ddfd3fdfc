//! A bounded pool of prepared text behind numeric handles, and the batch
//! operations on it.
use crate::analysis::{analyzed, texts_of};
use crate::backend::font::{parsed_font, positive, rejects_font};
use crate::backend::{FontSpec, FontView, MeasureBackend};
use crate::decimal::{numeral, push_numeral, unsigned_literal};
use crate::error::Error;
use crate::format::{quote, quoted};
use crate::layout::{
    invalid_line_height, invalid_max_width, layout, layout_outcome, layout_with_lines,
    lines_outcome, validate_line_height, validate_max_width,
};
use crate::memory::{estimated_heap_bytes, estimates};
use crate::prepare::{
    byte_count, data_result, prepare, prepare_outcome, prepare_with_segments, rich_data_result,
    segment_levels,
};
use crate::scalar::{nonnegative, Scalar};
use crate::segmentation::{grapheme_clusters, graphemes};
use crate::text::{chars_of, slice_of, spells, string_of, trim_chars, trimmed, views};
use crate::types::{
    LayoutLine, PrepareOptions, PreparedData, PreparedText, RichText, WhiteSpaceMode,
    DEFAULT_MAX_GRAPHEMES, DEFAULT_MAX_INPUT_BYTES, DEFAULT_MAX_SEGMENTS,
};
use std::collections::{HashMap, HashSet};
use vstd::prelude::*;
use vstd::string::*;

verus! {

broadcast use vstd::std_specs::hash::group_hash_axioms;

/// The most prepared texts that a pool holds.
pub const MAX_POOL_ENTRIES: usize = 16_384;

/// The most texts or handles of one batch.
pub const MAX_BATCH_ITEMS: usize = 1_024;

/// The largest batch of texts, in bytes of its JSON array.
pub const MAX_BATCH_INPUT_BYTES: usize = DEFAULT_MAX_INPUT_BYTES;

/// The most grapheme clusters of one batch.
pub const MAX_BATCH_GRAPHEMES: usize = DEFAULT_MAX_GRAPHEMES;

/// The most memory that a pool is charged with: 64 MiB.
pub const MAX_POOL_BYTES: usize = 67_108_864;

/// The longest list of handles, in bytes.
pub const MAX_HANDLES_CSV_BYTES: usize = 11_264;

/// The longest font specification, in bytes.
pub const MAX_FONT_SPEC_BYTES: usize = 4_096;

// ---- Pool -----------------------------------------------------------------------------------

/// A prepared text and the memory that the pool is charged with for it.
pub struct StoredPrepared<W> {
    pub prepared: PreparedText<W>,
    pub charged_bytes: usize,
}

/// A pool of prepared text. Handles are handed out in increasing order and
/// never again; zero means that none is left.
pub struct PreparedPool<W> {
    pub entries: HashMap<u32, StoredPrepared<W>>,
    pub next_id: u32,
    pub charged_bytes: usize,
}

/// A pool as a value.
pub struct PoolView<W> {
    pub entries: Map<u32, StoredPrepared<W>>,
    pub next_id: u32,
    pub charged_bytes: usize,
}

impl<W> View for PreparedPool<W> {
    type V = PoolView<W>;

    open spec fn view(&self) -> PoolView<W> {
        PoolView {
            entries: self.entries@,
            next_id: self.next_id,
            charged_bytes: self.charged_bytes,
        }
    }
}

/// The error for a value that is out of range of an operation.
pub open spec fn overflow_in(error: Error, operation: Seq<char>) -> bool {
    error matches Error::ArithmeticOverflow { operation: o } && o@ == operation
}

/// The error for handles that are used up.
pub open spec fn handles_exhausted(error: Error) -> bool {
    error matches Error::IdentifierExhausted { resource } && resource@
        == "WASM prepared-text handle"@
}

/// The error for an unusable state.
pub open spec fn state_unavailable(error: Error, state: Seq<char>) -> bool {
    error matches Error::StateUnavailable { state: s } && s@ == state
}

impl<W> PoolView<W> {
    /// Whether there is room for so many more entries and bytes.
    pub open spec fn has_room(self, entries: nat, bytes: nat) -> bool {
        &&& self.entries.len() + entries <= MAX_POOL_ENTRIES
        &&& self.charged_bytes + bytes <= MAX_POOL_BYTES
    }

    /// Whether `error` says that there is no room for so many more entries and
    /// bytes.
    pub open spec fn room_fault(self, entries: nat, bytes: nat, error: Error) -> bool {
        let total_entries = self.entries.len() + entries;
        let total_bytes = self.charged_bytes + bytes;
        if total_entries > usize::MAX {
            overflow_in(error, "reserving WASM pool entries"@)
        } else if total_entries > MAX_POOL_ENTRIES {
            error == (Error::PoolExhausted { capacity: MAX_POOL_ENTRIES })
        } else if total_bytes > usize::MAX {
            overflow_in(error, "reserving WASM pool memory"@)
        } else {
            total_bytes > MAX_POOL_BYTES && (error matches Error::ResourceLimit {
                resource,
                requested_bytes,
                max_bytes,
            } && resource@ == "WASM prepared-text pool"@ && requested_bytes == total_bytes
                && max_bytes == MAX_POOL_BYTES)
        }
    }

    /// Whether so many handles are left.
    pub open spec fn has_handles(self, count: nat) -> bool {
        count == 0 || (self.next_id > 0 && self.next_id + count - 1 <= u32::MAX)
    }

    /// The next handles.
    pub open spec fn handles(self, count: nat) -> Seq<u32> {
        Seq::new(count, |i: int| (self.next_id + i) as u32)
    }

    /// Whether one of the next handles is taken.
    pub open spec fn collides(self, count: nat) -> bool {
        exists|i: int|
            0 <= i < count && #[trigger] self.entries.contains_key(self.handles(count)[i])
    }

    /// The handle after so many more.
    pub open spec fn next_after(self, count: nat) -> u32 {
        if self.next_id + count > u32::MAX {
            0
        } else {
            (self.next_id + count) as u32
        }
    }

    /// What every operation keeps: the handles that live are not zero and were
    /// handed out before the next one.
    pub open spec fn monotonic(self) -> bool {
        forall|handle: u32| #[trigger]
            self.entries.contains_key(handle) ==> 0 < handle && (self.next_id == 0 || handle
                < self.next_id)
    }
}

impl<W: Scalar> Default for PreparedPool<W> {
    fn default() -> (r: Self)
        ensures
            r@.entries == Map::<u32, StoredPrepared<W>>::empty(),
            r@.next_id == 1,
            r@.charged_bytes == 0,
    {
        PreparedPool::new()
    }
}

impl<W: Scalar> PreparedPool<W> {
    /// An empty pool.
    #[must_use]
    pub fn new() -> (r: Self)
        ensures
            r@.entries == Map::<u32, StoredPrepared<W>>::empty(),
            r@.next_id == 1,
            r@.charged_bytes == 0,
            r@.monotonic(),
    {
        PreparedPool { entries: HashMap::new(), next_id: 1, charged_bytes: 0 }
    }

    fn validate_reservation(&self, entry_count: usize, charged_bytes: usize) -> (r: Result<
        usize,
        Error,
    >)
        ensures
            match r {
                Ok(total) => self@.has_room(entry_count as nat, charged_bytes as nat) && total
                    == self@.charged_bytes + charged_bytes,
                Err(error) => !self@.has_room(entry_count as nat, charged_bytes as nat)
                    && self@.room_fault(entry_count as nat, charged_bytes as nat, error),
            },
    {
        let requested_entries: usize = match self.entries.len().checked_add(entry_count) {
            Some(total) => total,
            None => {
                return Err(
                    Error::ArithmeticOverflow { operation: "reserving WASM pool entries" },
                );
            },
        };
        if requested_entries > MAX_POOL_ENTRIES {
            return Err(Error::PoolExhausted { capacity: MAX_POOL_ENTRIES });
        }
        let requested_bytes: usize = match self.charged_bytes.checked_add(charged_bytes) {
            Some(total) => total,
            None => {
                return Err(Error::ArithmeticOverflow { operation: "reserving WASM pool memory" });
            },
        };
        if requested_bytes > MAX_POOL_BYTES {
            return Err(
                Error::ResourceLimit {
                    resource: "WASM prepared-text pool",
                    requested_bytes,
                    max_bytes: MAX_POOL_BYTES,
                },
            );
        }
        Ok(requested_bytes)
    }

    fn reserve_handles(&self, count: usize) -> (r: Result<(Vec<u32>, u32), Error>)
        ensures
            if !self@.has_handles(count as nat) {
                r matches Err(error) && handles_exhausted(error)
            } else if self@.collides(count as nat) {
                r matches Err(error) && state_unavailable(
                    error,
                    "WASM monotonic handle allocator"@,
                )
            } else {
                r matches Ok((handles, next)) && handles@ == self@.handles(count as nat) && next
                    == if count == 0 {
                    self@.next_id
                } else {
                    self@.next_after(count as nat)
                }
            },
    {
        let ghost expected = self@.handles(count as nat);
        if count == 0 {
            let none: Vec<u32> = Vec::new();
            proof {
                assert(none@ =~= expected);
            }
            return Ok((none, self.next_id));
        }
        if self.next_id == 0 || count - 1 > (u32::MAX - self.next_id) as usize {
            return Err(Error::IdentifierExhausted { resource: "WASM prepared-text handle" });
        }
        let mut handles: Vec<u32> = Vec::new();
        let mut index: usize = 0;
        while index < count
            invariant
                index <= count,
                count > 0,
                self.next_id > 0,
                self.next_id + count - 1 <= u32::MAX,
                expected == self@.handles(count as nat),
                handles@ == expected.take(index as int),
                forall|k: int|
                    0 <= k < index ==> !(#[trigger] self@.entries.contains_key(expected[k])),
            decreases count - index,
        {
            let candidate: u32 = self.next_id + index as u32;
            proof {
                assert(candidate == expected[index as int]);
            }
            if self.entries.contains_key(&candidate) {
                proof {
                    assert(self@.entries.contains_key(self@.handles(count as nat)[index as int]));
                }
                return Err(
                    Error::StateUnavailable { state: "WASM monotonic handle allocator" },
                );
            }
            handles.push(candidate);
            index += 1;
            proof {
                assert(handles@ =~= expected.take(index as int));
            }
        }
        proof {
            assert(expected.take(index as int) =~= expected);
        }
        let left: u32 = u32::MAX - self.next_id;
        let next: u32 = if count > left as usize {
            0
        } else {
            self.next_id + count as u32
        };
        Ok((handles, next))
    }

    /// The prepared text behind a handle.
    ///
    /// # Errors
    ///
    /// Returns [`Error::InvalidHandle`] when the handle is unknown or freed.
    pub fn get(&self, handle: u32) -> (r: Result<&PreparedText<W>, Error>)
        ensures
            match r {
                Ok(prepared) => self@.entries.contains_key(handle) && *prepared
                    == self@.entries[handle].prepared,
                Err(error) => !self@.entries.contains_key(handle) && error
                    == (Error::InvalidHandle { handle }),
            },
    {
        match self.entries.get(&handle) {
            Some(stored) => Ok(&stored.prepared),
            None => Err(Error::InvalidHandle { handle }),
        }
    }

    /// Free a handle.
    ///
    /// # Errors
    ///
    /// Returns [`Error::InvalidHandle`] when the handle is unknown or freed, and
    /// [`Error::StateUnavailable`] when the accounting is short of its charge.
    pub fn remove(&mut self, handle: u32) -> (r: Result<(), Error>)
        ensures
            ({
                let before = old(self)@;
                if !before.entries.contains_key(handle) {
                    &&& r == Err::<(), Error>(Error::InvalidHandle { handle })
                    &&& final(self)@ == before
                } else if before.charged_bytes < before.entries[handle].charged_bytes {
                    &&& r matches Err(error) && state_unavailable(
                        error,
                        "WASM prepared-text memory accounting"@,
                    )
                    &&& final(self)@ == before
                } else {
                    &&& r is Ok
                    &&& final(self)@ == (PoolView {
                        entries: before.entries.remove(handle),
                        charged_bytes: (before.charged_bytes
                            - before.entries[handle].charged_bytes) as usize,
                        ..before
                    })
                }
            }),
    {
        let charge: usize = match self.entries.get(&handle) {
            Some(stored) => stored.charged_bytes,
            None => {
                return Err(Error::InvalidHandle { handle });
            },
        };
        if self.charged_bytes < charge {
            return Err(
                Error::StateUnavailable { state: "WASM prepared-text memory accounting" },
            );
        }
        self.entries.remove(&handle);
        self.charged_bytes = self.charged_bytes - charge;
        Ok(())
    }
}

/// The sum of the first `count` charges.
pub open spec fn total_charge(charges: Seq<usize>, count: int) -> nat
    decreases count,
{
    if count <= 0 {
        0
    } else {
        total_charge(charges, count - 1) + charges[count - 1] as nat
    }
}

/// The entries with the first `count` values stored under the handles.
pub open spec fn stored_under<W>(
    entries: Map<u32, StoredPrepared<W>>,
    handles: Seq<u32>,
    values: Seq<PreparedText<W>>,
    charges: Seq<usize>,
    count: int,
) -> Map<u32, StoredPrepared<W>>
    decreases count,
{
    if count <= 0 {
        entries
    } else {
        stored_under(entries, handles, values, charges, count - 1).insert(
            handles[count - 1],
            StoredPrepared { prepared: values[count - 1], charged_bytes: charges[count - 1] },
        )
    }
}

impl<W> PoolView<W> {
    /// What inserting a batch with these charges does. Nothing changes unless
    /// all of it is stored.
    pub open spec fn inserting(
        self,
        values: Seq<PreparedText<W>>,
        charges: Seq<usize>,
        after: PoolView<W>,
        outcome: Result<Seq<u32>, Error>,
    ) -> bool {
        let count = values.len();
        let total = total_charge(charges, count as int);
        if count == 0 {
            outcome == Ok::<Seq<u32>, Error>(Seq::empty()) && after == self
        } else if total > usize::MAX {
            &&& outcome matches Err(error) && overflow_in(
                error,
                "estimating WASM prepared-text memory"@,
            )
            &&& after == self
        } else if !self.has_room(count, total) {
            &&& outcome matches Err(error) && self.room_fault(count, total, error)
            &&& after == self
        } else if !self.has_handles(count) {
            &&& outcome matches Err(error) && handles_exhausted(error)
            &&& after == self
        } else if self.collides(count) {
            &&& outcome matches Err(error) && state_unavailable(
                error,
                "WASM monotonic handle allocator"@,
            )
            &&& after == self
        } else {
            &&& outcome == Ok::<Seq<u32>, Error>(self.handles(count))
            &&& after == (PoolView {
                entries: stored_under(
                    self.entries,
                    self.handles(count),
                    values,
                    charges,
                    count as int,
                ),
                next_id: self.next_after(count),
                charged_bytes: (self.charged_bytes + total) as usize,
            })
        }
    }
}

/// Handles as values, or the error.
pub open spec fn handle_result(result: Result<Vec<u32>, Error>) -> Result<Seq<u32>, Error> {
    match result {
        Ok(handles) => Ok(handles@),
        Err(error) => Err(error),
    }
}

/// The texts of a batch.
pub open spec fn batch_values<W>(values: Seq<(PreparedText<W>, usize)>) -> Seq<PreparedText<W>> {
    values.map_values(|value: (PreparedText<W>, usize)| value.0)
}

/// Whether charges cover what a batch retains: each text and its input.
pub open spec fn charges_cover<W>(
    values: Seq<(PreparedText<W>, usize)>,
    charges: Seq<usize>,
) -> bool {
    &&& charges.len() == values.len()
    &&& forall|i: int|
        0 <= i < values.len() ==> #[trigger] charges[i] >= values[i].1 && estimates(
            (charges[i] - values[i].1) as usize,
            values[i].0@,
        )
}

proof fn lemma_total_charge(charges: Seq<usize>, low: int, high: int)
    requires
        0 <= low <= high,
    ensures
        total_charge(charges, low) <= total_charge(charges, high),
    decreases high - low,
{
    if low < high {
        lemma_total_charge(charges, low, high - 1);
    }
}

impl<W: Scalar> PreparedPool<W> {
    /// Insert a batch, each text with the memory that the pool is charged with
    /// for it.
    ///
    /// # Errors
    ///
    /// Returns an error, and leaves the pool as it is, when the batch does not
    /// fit or no handles are left.
    pub fn insert_charged(&mut self, values: Vec<PreparedText<W>>, charges: &Vec<usize>) -> (r:
        Result<Vec<u32>, Error>)
        requires
            values@.len() == charges@.len(),
        ensures
            old(self)@.inserting(values@, charges@, final(self)@, handle_result(r)),
            r is Err ==> final(self)@ == old(self)@,
    {
        let ghost before = self@;
        let count: usize = values.len();
        if count == 0 {
            let none: Vec<u32> = Vec::new();
            proof {
                assert(none@ =~= Seq::empty());
            }
            return Ok(none);
        }
        let mut total: usize = 0;
        let mut index: usize = 0;
        while index < count
            invariant
                index <= count == charges@.len(),
                count == values@.len(),
                count > 0,
                total == total_charge(charges@, index as int),
                self@ == before,
                before == old(self)@,
            decreases count - index,
        {
            proof {
                lemma_total_charge(charges@, index + 1, count as int);
            }
            total = match total.checked_add(charges[index]) {
                Some(sum) => sum,
                None => {
                    return Err(
                        Error::ArithmeticOverflow {
                            operation: "estimating WASM prepared-text memory",
                        },
                    );
                },
            };
            index += 1;
        }
        let requested_bytes = match self.validate_reservation(count, total) {
            Ok(bytes) => bytes,
            Err(error) => {
                return Err(error);
            },
        };
        let (handles, next_id) = match self.reserve_handles(count) {
            Ok(reserved) => reserved,
            Err(error) => {
                return Err(error);
            },
        };
        let ghost all = values@;
        let mut rest = values;
        // Take the texts from the back, so that each is moved once.
        let mut left: usize = count;
        proof {
            assert(all.take(count as int) =~= all);
        }
        while left > 0
            invariant
                left <= count == handles@.len(),
                count == charges@.len(),
                count == all.len(),
                handles@ == before.handles(count as nat),
                rest@ == all.take(left as int),
                self.next_id == before.next_id,
                self.charged_bytes == before.charged_bytes,
                self.entries@ == stored_from(
                    before.entries,
                    handles@,
                    all,
                    charges@,
                    left as int,
                    count as int,
                ),
            decreases left,
        {
            left -= 1;
            if let Some(prepared) = rest.pop() {
                proof {
                    assert(prepared == all[left as int]);
                    assert(rest@ =~= all.take(left as int));
                }
                self.entries.insert(
                    handles[left],
                    StoredPrepared { prepared, charged_bytes: charges[left] },
                );
            }
        }
        self.charged_bytes = requested_bytes;
        self.next_id = next_id;
        proof {
            lemma_stored_from(before, all, charges@, count as int);
        }
        Ok(handles)
    }
}

/// The entries with the values `from..count` stored under their handles, the
/// last one first.
spec fn stored_from<W>(
    entries: Map<u32, StoredPrepared<W>>,
    handles: Seq<u32>,
    values: Seq<PreparedText<W>>,
    charges: Seq<usize>,
    from: int,
    count: int,
) -> Map<u32, StoredPrepared<W>>
    decreases count - from,
{
    if from >= count {
        entries
    } else {
        stored_from(entries, handles, values, charges, from + 1, count).insert(
            handles[from],
            StoredPrepared { prepared: values[from], charged_bytes: charges[from] },
        )
    }
}

proof fn lemma_stored_under_at<W>(
    pool: PoolView<W>,
    values: Seq<PreparedText<W>>,
    charges: Seq<usize>,
    total: nat,
    count: int,
    key: u32,
)
    requires
        0 <= count <= total,
        pool.has_handles(total),
        total > 0,
    ensures
        ({
            let stored = stored_under(pool.entries, pool.handles(total), values, charges, count);
            let position = key - pool.next_id;
            if 0 <= position < count {
                stored.contains_key(key) && stored[key] == (StoredPrepared {
                    prepared: values[position],
                    charged_bytes: charges[position],
                })
            } else {
                stored.contains_key(key) == pool.entries.contains_key(key) && (
                pool.entries.contains_key(key) ==> stored[key] == pool.entries[key])
            }
        }),
    decreases count,
{
    if count > 0 {
        lemma_stored_under_at(pool, values, charges, total, count - 1, key);
        assert(pool.handles(total)[count - 1] == (pool.next_id + count - 1) as u32);
    }
}

proof fn lemma_stored_from_at<W>(
    pool: PoolView<W>,
    values: Seq<PreparedText<W>>,
    charges: Seq<usize>,
    from: int,
    total: nat,
    key: u32,
)
    requires
        0 <= from <= total,
        pool.has_handles(total),
        total > 0,
    ensures
        ({
            let stored = stored_from(
                pool.entries,
                pool.handles(total),
                values,
                charges,
                from,
                total as int,
            );
            let position = key - pool.next_id;
            if from <= position < total {
                stored.contains_key(key) && stored[key] == (StoredPrepared {
                    prepared: values[position],
                    charged_bytes: charges[position],
                })
            } else {
                stored.contains_key(key) == pool.entries.contains_key(key) && (
                pool.entries.contains_key(key) ==> stored[key] == pool.entries[key])
            }
        }),
    decreases total - from,
{
    if from < total {
        lemma_stored_from_at(pool, values, charges, from + 1, total, key);
        assert(pool.handles(total)[from] == (pool.next_id + from) as u32);
    }
}

proof fn lemma_stored_from<W>(
    pool: PoolView<W>,
    values: Seq<PreparedText<W>>,
    charges: Seq<usize>,
    count: int,
)
    requires
        0 < count,
        pool.has_handles(count as nat),
    ensures
        stored_from(pool.entries, pool.handles(count as nat), values, charges, 0, count)
            == stored_under(pool.entries, pool.handles(count as nat), values, charges, count),
{
    let a = stored_from(pool.entries, pool.handles(count as nat), values, charges, 0, count);
    let b = stored_under(pool.entries, pool.handles(count as nat), values, charges, count);
    assert forall|key: u32| #[trigger] a.dom().contains(key) == b.dom().contains(key) by {
        lemma_stored_from_at(pool, values, charges, 0, count as nat, key);
        lemma_stored_under_at(pool, values, charges, count as nat, count, key);
    }
    assert(a.dom() =~= b.dom());
    assert forall|key: u32| #[trigger] a.dom().contains(key) implies a[key] == b[key] by {
        lemma_stored_from_at(pool, values, charges, 0, count as nat, key);
        lemma_stored_under_at(pool, values, charges, count as nat, count, key);
    }
    assert(a =~= b);
}

impl<W: Scalar> PreparedPool<W> {
    /// Insert a batch of texts, each with the size of its input.
    ///
    /// # Errors
    ///
    /// Returns an error, and leaves the pool as it is, when the batch does not
    /// fit or no handles are left.
    pub fn insert_batch(&mut self, values: Vec<(PreparedText<W>, usize)>) -> (r: Result<
        Vec<u32>,
        Error,
    >)
        ensures
            batch_inserted(old(self)@, values@, final(self)@, handle_result(r)),
            r is Err ==> final(self)@ == old(self)@,
    {
        let ghost all = values@;
        let ghost before = self@;
        let mut texts: Vec<PreparedText<W>> = Vec::new();
        let mut charges: Vec<usize> = Vec::new();
        for value in iter: values
            invariant
                iter.seq() == all,
                self@ == before,
                before == old(self)@,
                texts@ == batch_values(all.take(iter.index() as int)),
                charges_cover(all.take(iter.index() as int), charges@),
        {
            let (prepared, input_bytes) = value;
            let heap = estimated_heap_bytes(&prepared);
            let ghost done = all.take(iter.index() as int);
            let charge: usize = match heap.checked_add(input_bytes) {
                Some(charge) => charge,
                None => {
                    let error = Error::ArithmeticOverflow {
                        operation: "estimating WASM prepared-text memory",
                    };
                    proof {
                        assert(heap + all[iter.index() as int].1 > usize::MAX);
                        assert(uncountable(all, iter.index() as int, heap));
                    }
                    return Err(error);
                },
            };
            let ghost prior = charges@;
            texts.push(prepared);
            charges.push(charge);
            proof {
                let longer = all.take(iter.index() + 1);
                assert(longer =~= done.push((prepared, input_bytes)));
                assert(texts@ =~= batch_values(longer));
                assert forall|i: int| 0 <= i < longer.len() implies #[trigger] charges@[i]
                    >= longer[i].1 && estimates(
                    (charges@[i] - longer[i].1) as usize,
                    longer[i].0@,
                ) by {
                    if i < done.len() {
                        assert(charges@[i] == prior[i]);
                        assert(longer[i] == done[i]);
                    }
                }
            }
        }
        proof {
            assert(all.take(all.len() as int) =~= all);
            assert(texts@.len() == all.len());
        }
        let r = self.insert_charged(texts, &charges);
        proof {
            assert(charges_cover(all, charges@));
        }
        r
    }

    /// Insert one text with the size of its input.
    ///
    /// # Errors
    ///
    /// Fails as [`Self::insert_batch`] does.
    pub fn insert(&mut self, prepared: PreparedText<W>, input_bytes: usize) -> (r: Result<
        u32,
        Error,
    >)
        ensures
            exists|outcome: Result<Seq<u32>, Error>|
                {
                    &&& #[trigger] batch_inserted(
                        old(self)@,
                        seq![(prepared, input_bytes)],
                        final(self)@,
                        outcome,
                    )
                    &&& match outcome {
                        Ok(handles) => r == Ok::<u32, Error>(handles[0]),
                        Err(error) => r == Err::<u32, Error>(error),
                    }
                },
            r is Err ==> final(self)@ == old(self)@,
    {
        let ghost before = self@;
        let mut values: Vec<(PreparedText<W>, usize)> = Vec::new();
        values.push((prepared, input_bytes));
        let ghost given = values@;
        proof {
            assert(given =~= seq![(prepared, input_bytes)]);
        }
        let inserted = self.insert_batch(values);
        let ghost outcome = handle_result(inserted);
        proof {
            assert(batch_inserted(before, seq![(prepared, input_bytes)], self@, outcome));
        }
        match inserted {
            Ok(handles) => {
                proof {
                    assert(handles@.len() == 1);
                }
                Ok(handles[0])
            },
            Err(error) => Err(error),
        }
    }
}

/// Whether the charge for the value at `index` cannot be represented, where its
/// heap memory is estimated at `heap`.
pub open spec fn uncountable<W>(
    values: Seq<(PreparedText<W>, usize)>,
    index: int,
    heap: usize,
) -> bool {
    &&& 0 <= index < values.len()
    &&& estimates(heap, values[index].0@)
    &&& heap + values[index].1 > usize::MAX
}

/// What inserting a batch does, for charges that cover what it retains.
pub open spec fn batch_inserted<W>(
    before: PoolView<W>,
    values: Seq<(PreparedText<W>, usize)>,
    after: PoolView<W>,
    outcome: Result<Seq<u32>, Error>,
) -> bool {
    ||| exists|charges: Seq<usize>|
        {
            &&& #[trigger] charges_cover(values, charges)
            &&& before.inserting(batch_values(values), charges, after, outcome)
        }
    ||| {
        &&& exists|index: int, heap: usize| #[trigger] uncountable(values, index, heap)
        &&& outcome matches Err(error) && overflow_in(
            error,
            "estimating WASM prepared-text memory"@,
        )
        &&& after == before
    }
}

/// Handles are never handed out twice: those of a batch are new, live behind
/// their values afterwards, and lie before all that come later.
pub proof fn handles_are_never_reused<W>(
    pool: PoolView<W>,
    values: Seq<PreparedText<W>>,
    charges: Seq<usize>,
    after: PoolView<W>,
    handles: Seq<u32>,
)
    requires
        pool.monotonic(),
        pool.inserting(values, charges, after, Ok(handles)),
    ensures
        after.monotonic(),
        handles.len() == values.len(),
        forall|i: int|
            0 <= i < handles.len() ==> {
                &&& !pool.entries.contains_key(#[trigger] handles[i])
                &&& pool.next_id <= handles[i]
                &&& after.next_id == 0 || handles[i] < after.next_id
                &&& after.entries.contains_key(handles[i])
                &&& after.entries[handles[i]].prepared == values[i]
            },
        forall|handle: u32| #[trigger]
            pool.entries.contains_key(handle) ==> after.entries.contains_key(handle)
                && after.entries[handle] == pool.entries[handle],
{
    let count = values.len();
    if count > 0 {
        assert forall|key: u32| #[trigger] after.entries.contains_key(key) implies 0 < key && (
        after.next_id == 0 || key < after.next_id) by {
            lemma_stored_under_at(pool, values, charges, count, count as int, key);
        }
        assert forall|i: int| 0 <= i < handles.len() implies {
            &&& !pool.entries.contains_key(#[trigger] handles[i])
            &&& pool.next_id <= handles[i]
            &&& after.next_id == 0 || handles[i] < after.next_id
            &&& after.entries.contains_key(handles[i])
            &&& after.entries[handles[i]].prepared == values[i]
        } by {
            lemma_stored_under_at(pool, values, charges, count, count as int, handles[i]);
        }
        assert forall|handle: u32| #[trigger] pool.entries.contains_key(
            handle,
        ) implies after.entries.contains_key(handle) && after.entries[handle]
            == pool.entries[handle] by {
            lemma_stored_under_at(pool, values, charges, count, count as int, handle);
        }
    }
}

/// A pool whose handles were handed out in order never finds the next ones
/// taken.
pub proof fn monotonic_pools_do_not_collide<W>(pool: PoolView<W>, count: nat)
    requires
        pool.monotonic(),
        pool.has_handles(count),
    ensures
        !pool.collides(count),
{
    assert forall|i: int| 0 <= i < count implies !(#[trigger] pool.entries.contains_key(
        pool.handles(count)[i],
    )) by {
        assert(pool.handles(count)[i] == (pool.next_id + i) as u32);
    }
}

/// Freeing keeps the handles in order.
pub proof fn freeing_keeps_order<W>(pool: PoolView<W>, handle: u32, charged_bytes: usize)
    requires
        pool.monotonic(),
    ensures
        (PoolView { entries: pool.entries.remove(handle), charged_bytes, ..pool }).monotonic(),
{
}

/// Removing a text releases what it was charged with: after it is inserted and
/// freed, the pool holds and is charged with what it was before.
pub proof fn freeing_releases_the_charge<W>(
    pool: PoolView<W>,
    value: PreparedText<W>,
    charge: usize,
    after: PoolView<W>,
    handle: u32,
)
    requires
        pool.monotonic(),
        pool.inserting(seq![value], seq![charge], after, Ok(seq![handle])),
    ensures
        after.entries.contains_key(handle),
        after.entries[handle].charged_bytes == charge,
        after.charged_bytes - charge == pool.charged_bytes,
        after.entries.remove(handle) == pool.entries,
{
    let handles = pool.handles(1);
    assert(seq![handle][0] == handles[0]);
    assert(handles[0] == pool.next_id);
    assert(total_charge(seq![charge], 1) == charge) by {
        assert(total_charge(seq![charge], 0) == 0);
    }
    monotonic_pools_do_not_collide(pool, 1);
    assert(stored_under(pool.entries, handles, seq![value], seq![charge], 0) == pool.entries);
    assert(!pool.entries.contains_key(handle));
    assert(after.entries.remove(handle) =~= pool.entries);
}

// ---- Requests ---------------------------------------------------------------------------------

/// The stable code of an error.
pub open spec fn code_of(error: Error) -> Seq<char> {
    match error {
        Error::InvalidFontSpec { .. } => "invalid_font_spec"@,
        Error::MissingFont { .. } => "missing_font"@,
        Error::MissingGlyph { .. } => "missing_glyph"@,
        Error::Measurement { .. } => "measurement_failed"@,
        Error::InvalidMetric { .. } => "invalid_metric"@,
        Error::InvalidInput { .. } => "invalid_input"@,
        Error::InputTooLarge { .. } => "input_too_large"@,
        Error::InputComplexity { .. } => "input_complexity"@,
        Error::InvalidCursor { .. } => "invalid_cursor"@,
        Error::InvalidBidiStart { .. } => "invalid_bidi_start"@,
        Error::UnsupportedGlyph { .. } => "unsupported_glyph"@,
        Error::InvalidHandle { .. } => "invalid_handle"@,
        Error::PoolExhausted { .. } => "pool_exhausted"@,
        Error::IdentifierExhausted { .. } => "identifier_exhausted"@,
        Error::ResourceLimit { .. } => "resource_limit"@,
        Error::StateUnavailable { .. } => "state_unavailable"@,
        Error::ArithmeticOverflow { .. } => "arithmetic_overflow"@,
    }
}

/// The stable code of an error.
#[must_use]
pub fn error_code(error: &Error) -> (r: &'static str)
    ensures
        r@ == code_of(*error),
{
    match error {
        Error::InvalidFontSpec { .. } => "invalid_font_spec",
        Error::MissingFont { .. } => "missing_font",
        Error::MissingGlyph { .. } => "missing_glyph",
        Error::Measurement { .. } => "measurement_failed",
        Error::InvalidMetric { .. } => "invalid_metric",
        Error::InvalidInput { .. } => "invalid_input",
        Error::InputTooLarge { .. } => "input_too_large",
        Error::InputComplexity { .. } => "input_complexity",
        Error::InvalidCursor { .. } => "invalid_cursor",
        Error::InvalidBidiStart { .. } => "invalid_bidi_start",
        Error::UnsupportedGlyph { .. } => "unsupported_glyph",
        Error::InvalidHandle { .. } => "invalid_handle",
        Error::PoolExhausted { .. } => "pool_exhausted",
        Error::IdentifierExhausted { .. } => "identifier_exhausted",
        Error::ResourceLimit { .. } => "resource_limit",
        Error::StateUnavailable { .. } => "state_unavailable",
        Error::ArithmeticOverflow { .. } => "arithmetic_overflow",
    }
}

/// What a requested font comes to.
pub open spec fn font_request<W: Scalar>(
    font_css: Seq<char>,
    outcome: Result<FontView<W>, Error>,
) -> bool {
    if byte_count(font_css) > MAX_FONT_SPEC_BYTES {
        outcome == Err::<FontView<W>, Error>(
            Error::InputTooLarge {
                bytes: byte_count(font_css),
                max_bytes: MAX_FONT_SPEC_BYTES,
            },
        )
    } else {
        match parsed_font::<W>(font_css) {
            Ok(font) => outcome == Ok::<FontView<W>, Error>(font),
            Err(reason) => outcome matches Err(error) && rejects_font(error, font_css, reason),
        }
    }
}

/// A font as a value, or the error.
pub open spec fn font_result<W>(result: Result<FontSpec<W>, Error>) -> Result<FontView<W>, Error> {
    match result {
        Ok(font) => Ok(font@),
        Err(error) => Err(error),
    }
}

/// Parse a requested font.
///
/// # Errors
///
/// Returns an error when the specification is too long or invalid.
pub fn parse_font<W: Scalar>(font_css: &str) -> (r: Result<FontSpec<W>, Error>)
    ensures
        font_request(font_css@, font_result(r)),
{
    let bytes: usize = font_css.len();
    if bytes > MAX_FONT_SPEC_BYTES {
        return Err(Error::InputTooLarge { bytes, max_bytes: MAX_FONT_SPEC_BYTES });
    }
    FontSpec::new(font_css)
}

/// The mode that a name stands for.
pub open spec fn mode_named(name: Seq<char>) -> Option<WhiteSpaceMode> {
    if name == "normal"@ {
        Some(WhiteSpaceMode::Normal)
    } else if name == "pre-wrap"@ {
        Some(WhiteSpaceMode::PreWrap)
    } else {
        None
    }
}

/// The error for a name that stands for no mode.
pub open spec fn unknown_mode(error: Error) -> bool {
    error.rejects("white_space"@, "expected \"normal\" or \"pre-wrap\""@)
}

/// Parse a requested whitespace mode.
///
/// # Errors
///
/// Returns [`Error::InvalidInput`] for an unknown name.
pub fn parse_white_space(white_space: &str) -> (r: Result<WhiteSpaceMode, Error>)
    ensures
        match mode_named(white_space@) {
            Some(mode) => r == Ok::<WhiteSpaceMode, Error>(mode),
            None => r matches Err(error) && unknown_mode(error),
        },
{
    let chars = chars_of(white_space);
    if spells(&chars, "normal") {
        Ok(WhiteSpaceMode::Normal)
    } else if spells(&chars, "pre-wrap") {
        Ok(WhiteSpaceMode::PreWrap)
    } else {
        Err(Error::invalid_input("white_space", "expected \"normal\" or \"pre-wrap\""))
    }
}

/// The options that a request in some mode is prepared with.
pub open spec fn request_options<W: Scalar>(mode: WhiteSpaceMode) -> PrepareOptions<W> {
    PrepareOptions {
        white_space: mode,
        profile: None,
        max_input_bytes: DEFAULT_MAX_INPUT_BYTES,
        max_graphemes: DEFAULT_MAX_GRAPHEMES,
        max_segments: DEFAULT_MAX_SEGMENTS,
    }
}

/// The options for a requested whitespace mode.
///
/// # Errors
///
/// Returns [`Error::InvalidInput`] for an unknown name.
pub fn prepare_options<W: Scalar>(white_space: &str) -> (r: Result<PrepareOptions<W>, Error>)
    ensures
        match mode_named(white_space@) {
            Some(mode) => r == Ok::<PrepareOptions<W>, Error>(request_options(mode)),
            None => r matches Err(error) && unknown_mode(error),
        },
{
    match parse_white_space(white_space) {
        Ok(mode) => Ok(
            PrepareOptions {
                white_space: mode,
                profile: None,
                max_input_bytes: DEFAULT_MAX_INPUT_BYTES,
                max_graphemes: DEFAULT_MAX_GRAPHEMES,
                max_segments: DEFAULT_MAX_SEGMENTS,
            },
        ),
        Err(error) => Err(error),
    }
}

/// What is said of a text that is no handle.
pub uninterp spec fn handle_fault(text: Seq<char>) -> Seq<char>;

/// `str::parse` of the standard library for `u32`, its error in words.
///
/// Claimed of it: it reads an optional plus sign and digits, at least one, up
/// to `u32::MAX`; the words for anything else depend on the text alone.
#[verifier::external_body]
fn parse_u32(text: &str) -> (r: Result<u32, String>)
    ensures
        match unsigned_literal(text@, u32::MAX as nat) {
            Some(value) => r == Ok::<u32, String>(value as u32),
            None => r matches Err(message) && message@ == handle_fault(text@),
        },
{
    text.parse::<u32>().map_err(|error| error.to_string())
}

/// The first comma from `from` on, or the length.
pub open spec fn next_comma(text: Seq<char>, from: int) -> int
    decreases text.len() - from,
{
    if from >= text.len() {
        text.len() as int
    } else if text[from] == ',' {
        from
    } else {
        next_comma(text, from + 1)
    }
}

/// The handles of a list from `from` on, or the first part that is none.
pub open spec fn handles_from(text: Seq<char>, from: int) -> Result<Seq<u32>, Seq<char>>
    decreases text.len() - from,
{
    let end = next_comma(text, from);
    let last = !(0 <= from <= end < text.len());
    let raw = text.subrange(
        from,
        if last {
            text.len() as int
        } else {
            end
        },
    );
    match unsigned_literal(trimmed(raw), u32::MAX as nat) {
        None => Err(raw),
        Some(value) => if last {
            Ok(seq![value as u32])
        } else {
            match handles_from(text, end + 1) {
                Err(fault) => Err(fault),
                Ok(rest) => Ok(seq![value as u32] + rest),
            }
        },
    }
}

/// What a list of handles comes to.
pub open spec fn handles_outcome(csv: Seq<char>, outcome: Result<Seq<u32>, Error>) -> bool {
    if byte_count(csv) > MAX_HANDLES_CSV_BYTES {
        outcome == Err::<Seq<u32>, Error>(
            Error::InputTooLarge { bytes: byte_count(csv), max_bytes: MAX_HANDLES_CSV_BYTES },
        )
    } else if trimmed(csv).len() == 0 {
        outcome == Ok::<Seq<u32>, Error>(Seq::empty())
    } else {
        match handles_from(csv, 0) {
            Err(raw) => outcome matches Err(error) && error.rejects(
                "handles_csv"@,
                "invalid handle "@ + quoted(raw) + ": "@ + handle_fault(trimmed(raw)),
            ),
            Ok(handles) => if handles.len() > MAX_BATCH_ITEMS {
                outcome matches Err(error) && error.rejects(
                    "handles_csv"@,
                    "batch exceeds 1024 handles"@,
                )
            } else {
                outcome == Ok::<Seq<u32>, Error>(handles)
            },
        }
    }
}

/// Parse one handle of a list.
fn parse_handle(raw: &Vec<char>) -> (r: Result<u32, Error>)
    ensures
        match unsigned_literal(trimmed(raw@), u32::MAX as nat) {
            Some(value) => r == Ok::<u32, Error>(value as u32),
            None => r matches Err(error) && error.rejects(
                "handles_csv"@,
                "invalid handle "@ + quoted(raw@) + ": "@ + handle_fault(trimmed(raw@)),
            ),
        },
{
    let inner = trim_chars(raw);
    let text = string_of(&inner, 0, inner.len());
    proof {
        assert(text@ =~= inner@);
    }
    match parse_u32(text.as_str()) {
        Ok(handle) => Ok(handle),
        Err(fault) => {
            let whole = string_of(raw, 0, raw.len());
            proof {
                assert(whole@ =~= raw@);
            }
            let mut reason = "invalid handle ".to_string();
            reason.append(quote(whole.as_str()).as_str());
            reason.append(": ");
            reason.append(fault.as_str());
            Err(Error::InvalidInput { parameter: "handles_csv", reason })
        },
    }
}

/// Parse a comma-separated list of handles.
///
/// # Errors
///
/// Returns an error when the list is too long or any part of it is no handle.
pub fn parse_handles(handles_csv: &str) -> (r: Result<Vec<u32>, Error>)
    ensures
        handles_outcome(handles_csv@, handle_result(r)),
{
    let bytes: usize = handles_csv.len();
    if bytes > MAX_HANDLES_CSV_BYTES {
        return Err(Error::InputTooLarge { bytes, max_bytes: MAX_HANDLES_CSV_BYTES });
    }
    let chars = chars_of(handles_csv);
    let mut handles: Vec<u32> = Vec::new();
    if trim_chars(&chars).len() == 0 {
        proof {
            assert(handles@ =~= Seq::empty());
        }
        return Ok(handles);
    }
    let ghost all = handles_from(chars@, 0);
    let mut from: usize = 0;
    proof {
        if let Ok(rest) = all {
            assert(handles@ + rest =~= rest);
        }
    }
    loop
        invariant
            from <= chars@.len(),
            chars@ == handles_csv@,
            byte_count(handles_csv@) <= MAX_HANDLES_CSV_BYTES,
            trimmed(handles_csv@).len() > 0,
            all == handles_from(chars@, 0),
            all == match handles_from(chars@, from as int) {
                Ok(rest) => Ok::<Seq<u32>, Seq<char>>(handles@ + rest),
                Err(fault) => Err(fault),
            },
        decreases chars@.len() - from,
    {
        let mut end: usize = from;
        while end < chars.len() && chars[end] != ','
            invariant
                from <= end <= chars@.len(),
                next_comma(chars@, from as int) == next_comma(chars@, end as int),
            decreases chars@.len() - end,
        {
            end += 1;
        }
        let raw = slice_of(&chars, from, end);
        let handle = match parse_handle(&raw) {
            Ok(handle) => handle,
            Err(error) => {
                return Err(error);
            },
        };
        let ghost before = handles@;
        handles.push(handle);
        if end == chars.len() {
            proof {
                assert(handles@ =~= before + seq![handle]);
            }
            if handles.len() > MAX_BATCH_ITEMS {
                return Err(Error::invalid_input("handles_csv", "batch exceeds 1024 handles"));
            }
            return Ok(handles);
        }
        proof {
            if let Ok(rest) = handles_from(chars@, end + 1) {
                assert(before + (seq![handle] + rest) =~= handles@ + rest);
            }
        }
        from = end + 1;
    }
}

// ---- Operations on the pool ----------------------------------------------------------------------

/// The error for a text that may fail to be prepared.
pub open spec fn request_fault<W: Scalar>(
    font_css: Seq<char>,
    white_space: Seq<char>,
    error: Error,
) -> bool {
    if byte_count(font_css) <= MAX_FONT_SPEC_BYTES && parsed_font::<W>(font_css) is Ok {
        mode_named(white_space) is None && unknown_mode(error)
    } else {
        font_request::<W>(font_css, Err(error))
    }
}

/// Whether a font and a mode can be had.
pub open spec fn request_valid<W: Scalar>(font_css: Seq<char>, white_space: Seq<char>) -> bool {
    &&& byte_count(font_css) <= MAX_FONT_SPEC_BYTES
    &&& parsed_font::<W>(font_css) is Ok
    &&& mode_named(white_space) is Some
}

/// What preparing a requested text may give.
pub open spec fn requested_text<W: Scalar, B: MeasureBackend<W>>(
    text: Seq<char>,
    font_css: Seq<char>,
    white_space: Seq<char>,
    backend: &B,
    outcome: Result<PreparedData<W>, Error>,
) -> bool {
    if request_valid::<W>(font_css, white_space) {
        prepare_outcome(
            text,
            parsed_font::<W>(font_css)->Ok_0,
            backend,
            request_options(mode_named(white_space)->0),
            outcome,
        )
    } else {
        outcome matches Err(error) && request_fault::<W>(font_css, white_space, error)
    }
}

/// Prepare a requested text.
///
/// # Errors
///
/// Returns an error when the font, the mode or the text is rejected.
pub fn prepare_request<W: Scalar, B: MeasureBackend<W>>(
    text: &str,
    font_css: &str,
    white_space: &str,
    backend: &B,
) -> (r: Result<PreparedText<W>, Error>)
    ensures
        requested_text(text@, font_css@, white_space@, backend, data_result(r)),
{
    let font = match parse_font::<W>(font_css) {
        Ok(font) => font,
        Err(error) => {
            return Err(error);
        },
    };
    let options = match prepare_options::<W>(white_space) {
        Ok(options) => options,
        Err(error) => {
            return Err(error);
        },
    };
    prepare(text, &font, backend, options)
}

/// What preparing a text into a pool may do.
pub open spec fn pool_prepare_outcome<W: Scalar, B: MeasureBackend<W>>(
    before: PoolView<W>,
    text: Seq<char>,
    font_css: Seq<char>,
    white_space: Seq<char>,
    backend: &B,
    after: PoolView<W>,
    outcome: Result<u32, Error>,
) -> bool {
    ||| exists|prepared: PreparedText<W>, handles: Result<Seq<u32>, Error>|
        {
            &&& requested_text(text, font_css, white_space, backend, Ok(prepared@))
            &&& #[trigger] batch_inserted(
                before,
                seq![(prepared, byte_count(text))],
                after,
                handles,
            )
            &&& match handles {
                Ok(list) => outcome == Ok::<u32, Error>(list[0]),
                Err(error) => outcome == Err::<u32, Error>(error),
            }
        }
    ||| {
        &&& after == before
        &&& outcome matches Err(error) && requested_text(
            text,
            font_css,
            white_space,
            backend,
            Err(error),
        )
    }
}

/// Prepare text and store it behind a handle.
///
/// # Errors
///
/// Returns an error when preparation fails or the pool is full.
pub fn pool_prepare<W: Scalar, B: MeasureBackend<W>>(
    pool: &mut PreparedPool<W>,
    text: &str,
    font_css: &str,
    white_space: &str,
    backend: &B,
) -> (r: Result<u32, Error>)
    ensures
        pool_prepare_outcome(
            old(pool)@,
            text@,
            font_css@,
            white_space@,
            backend,
            final(pool)@,
            r,
        ),
        r is Err ==> final(pool)@ == old(pool)@,
{
    match prepare_request(text, font_css, white_space, backend) {
        Ok(prepared) => pool.insert(prepared, text.len()),
        Err(error) => Err(error),
    }
}

/// The line count that a layout gives, where it succeeds.
pub open spec fn line_count_at<W: Scalar>(
    data: &PreparedData<W>,
    max_width: W,
    line_height: W,
) -> Option<nat> {
    let lines = crate::line_break::walked_lines(
        data,
        crate::line_break::fit_limit(max_width, data.profile),
    ).len();
    let height = W::ratio_value(lines, 1).times(line_height);
    if nonnegative(max_width) && positive(line_height) && data.profile.valid()
        && crate::scalar::is_measure(height) {
        Some(lines)
    } else {
        None
    }
}

/// What laying out the text behind a handle gives.
pub open spec fn handle_layout_outcome<W: Scalar>(
    pool: PoolView<W>,
    handle: u32,
    max_width: W,
    line_height: W,
    outcome: Result<u32, Error>,
) -> bool {
    if !pool.entries.contains_key(handle) {
        outcome == Err::<u32, Error>(Error::InvalidHandle { handle })
    } else {
        let data = &pool.entries[handle].prepared@;
        match line_count_at(data, max_width, line_height) {
            None => outcome matches Err(error) && layout_outcome(
                data,
                max_width,
                line_height,
                data.profile,
                Err(error),
            ),
            Some(lines) => if lines > u32::MAX {
                outcome matches Err(error) && overflow_in(error, "converting line count to u32"@)
            } else {
                outcome == Ok::<u32, Error>(lines as u32)
            },
        }
    }
}

/// A line count as a `u32`.
fn narrow_count(count: usize, operation: &'static str) -> (r: Result<u32, Error>)
    ensures
        if count > u32::MAX {
            r matches Err(error) && overflow_in(error, operation@)
        } else {
            r == Ok::<u32, Error>(count as u32)
        },
{
    if count as u64 > u32::MAX as u64 {
        Err(Error::ArithmeticOverflow { operation })
    } else {
        Ok(count as u32)
    }
}

/// Layout the text behind a handle and return its line count.
///
/// # Errors
///
/// Returns an error for an invalid handle or invalid geometry.
pub fn pool_layout<W: Scalar>(
    pool: &PreparedPool<W>,
    handle: u32,
    max_width: W,
    line_height: W,
) -> (r: Result<u32, Error>)
    ensures
        handle_layout_outcome(pool@, handle, max_width, line_height, r),
{
    let prepared = match pool.get(handle) {
        Ok(prepared) => prepared,
        Err(error) => {
            return Err(error);
        },
    };
    match layout(prepared, max_width, line_height) {
        Ok(result) => narrow_count(result.line_count, "converting line count to u32"),
        Err(error) => Err(error),
    }
}

/// What preparing and laying out in one step may give.
pub open spec fn one_step_outcome<W: Scalar, B: MeasureBackend<W>>(
    text: Seq<char>,
    font_css: Seq<char>,
    white_space: Seq<char>,
    max_width: W,
    line_height: W,
    backend: &B,
    outcome: Result<u32, Error>,
) -> bool {
    ||| exists|data: PreparedData<W>|
        {
            &&& #[trigger] requested_text(text, font_css, white_space, backend, Ok(data))
            &&& match line_count_at(&data, max_width, line_height) {
                None => outcome matches Err(error) && layout_outcome(
                    &data,
                    max_width,
                    line_height,
                    data.profile,
                    Err(error),
                ),
                Some(lines) => if lines > u32::MAX {
                    outcome matches Err(error) && overflow_in(
                        error,
                        "converting line count to u32"@,
                    )
                } else {
                    outcome == Ok::<u32, Error>(lines as u32)
                },
            }
        }
    ||| outcome matches Err(error) && requested_text(
        text,
        font_css,
        white_space,
        backend,
        Err(error),
    )
}

/// Prepare and layout text in one call and return its line count.
///
/// # Errors
///
/// Returns an error when preparation or layout fails.
pub fn prepare_and_layout<W: Scalar, B: MeasureBackend<W>>(
    text: &str,
    font_css: &str,
    white_space: &str,
    max_width: W,
    line_height: W,
    backend: &B,
) -> (r: Result<u32, Error>)
    ensures
        one_step_outcome(
            text@,
            font_css@,
            white_space@,
            max_width,
            line_height,
            backend,
            r,
        ),
{
    let prepared = match prepare_request(text, font_css, white_space, backend) {
        Ok(prepared) => prepared,
        Err(error) => {
            return Err(error);
        },
    };
    proof {
        assert(requested_text(text@, font_css@, white_space@, backend, Ok(prepared@)));
    }
    match layout(&prepared, max_width, line_height) {
        Ok(result) => narrow_count(result.line_count, "converting line count to u32"),
        Err(error) => Err(error),
    }
}

/// What laying a requested text out with its lines may give.
pub open spec fn requested_lines<W: Scalar, B: MeasureBackend<W>>(
    text: Seq<char>,
    font_css: Seq<char>,
    white_space: Seq<char>,
    max_width: W,
    backend: &B,
    outcome: Result<Vec<LayoutLine<W>>, Error>,
) -> bool {
    ||| exists|rich: RichText<W>|
        {
            &&& requested_text(text, font_css, white_space, backend, Ok(rich.data))
            &&& rich.segments == texts_of(analyzed(text, mode_named(white_space)->0))
            &&& rich.seg_levels == segment_levels(rich.segments)
            &&& #[trigger] lines_outcome(rich, max_width, outcome)
        }
    ||| outcome matches Err(error) && requested_text(
        text,
        font_css,
        white_space,
        backend,
        Err(error),
    )
}

/// Prepare and layout text in one call and return its lines.
///
/// # Errors
///
/// Returns an error when preparation or layout fails.
pub fn layout_lines<W: Scalar, B: MeasureBackend<W>>(
    text: &str,
    font_css: &str,
    white_space: &str,
    max_width: W,
    backend: &B,
) -> (r: Result<Vec<LayoutLine<W>>, Error>)
    ensures
        requested_lines(text@, font_css@, white_space@, max_width, backend, r),
{
    let font = match parse_font::<W>(font_css) {
        Ok(font) => font,
        Err(error) => {
            return Err(error);
        },
    };
    let options = match prepare_options::<W>(white_space) {
        Ok(options) => options,
        Err(error) => {
            return Err(error);
        },
    };
    let outcome = prepare_with_segments(text, &font, backend, options);
    proof {
        assert(requested_text(
            text@,
            font_css@,
            white_space@,
            backend,
            rich_data_result(outcome),
        ));
    }
    match outcome {
        Ok(prepared) => {
            let lines = layout_with_lines(&prepared, max_width);
            proof {
                assert(lines_outcome(prepared@, max_width, lines));
            }
            lines
        },
        Err(error) => Err(error),
    }
}

// ---- Batches ----------------------------------------------------------------------------------------

/// The line counts of the first `count` handles, all of which lay out.
pub open spec fn batch_lines<W: Scalar>(
    pool: PoolView<W>,
    handles: Seq<u32>,
    count: int,
    max_width: W,
    line_height: W,
) -> nat
    decreases count,
{
    if count <= 0 {
        0
    } else {
        batch_lines(pool, handles, count - 1, max_width, line_height) + line_count_at(
            &pool.entries[handles[count - 1]].prepared@,
            max_width,
            line_height,
        )->0
    }
}

/// Whether the first `count` handles lay out and their lines can be counted.
pub open spec fn batch_lays_out<W: Scalar>(
    pool: PoolView<W>,
    handles: Seq<u32>,
    count: int,
    max_width: W,
    line_height: W,
) -> bool {
    forall|i: int|
        0 <= i < count ==> {
            &&& pool.entries.contains_key(#[trigger] handles[i])
            &&& line_count_at(
                &pool.entries[handles[i]].prepared@,
                max_width,
                line_height,
            ) is Some
            &&& batch_lines(pool, handles, i + 1, max_width, line_height) <= usize::MAX
        }
}

/// Whether `error` says what is wrong with the handle at `index`, where those
/// before it lay out.
pub open spec fn batch_fault_at<W: Scalar>(
    pool: PoolView<W>,
    handles: Seq<u32>,
    index: int,
    max_width: W,
    line_height: W,
    error: Error,
) -> bool {
    let handle = handles[index];
    let data = &pool.entries[handle].prepared@;
    &&& 0 <= index < handles.len()
    &&& batch_lays_out(pool, handles, index, max_width, line_height)
    &&& if !pool.entries.contains_key(handle) {
        error == (Error::InvalidHandle { handle })
    } else if line_count_at(data, max_width, line_height) is None {
        layout_outcome(data, max_width, line_height, data.profile, Err(error))
    } else {
        &&& batch_lines(pool, handles, index + 1, max_width, line_height) > usize::MAX
        &&& overflow_in(error, "summing batch line counts"@)
    }
}

/// What laying out a batch of handles gives.
pub open spec fn batch_layout_outcome<W: Scalar>(
    pool: PoolView<W>,
    handles: Seq<u32>,
    max_width: W,
    line_height: W,
    outcome: Result<u32, Error>,
) -> bool {
    let count = handles.len() as int;
    if batch_lays_out(pool, handles, count, max_width, line_height) {
        let total = batch_lines(pool, handles, count, max_width, line_height);
        if total > u32::MAX {
            outcome matches Err(error) && overflow_in(error, "converting batch line count to u32"@)
        } else {
            outcome == Ok::<u32, Error>(total as u32)
        }
    } else {
        outcome matches Err(error) && exists|index: int| #[trigger]
            batch_fault_at(pool, handles, index, max_width, line_height, error)
    }
}

/// Layout a batch of handles and return the total line count.
///
/// # Errors
///
/// Returns an error if any handle is unknown or cannot be laid out. Partial
/// success is never returned.
pub fn layout_handles<W: Scalar>(
    pool: &PreparedPool<W>,
    handles: &Vec<u32>,
    max_width: W,
    line_height: W,
) -> (r: Result<u32, Error>)
    ensures
        batch_layout_outcome(pool@, handles@, max_width, line_height, r),
{
    let mut total: usize = 0;
    let mut index: usize = 0;
    while index < handles.len()
        invariant
            index <= handles@.len(),
            total == batch_lines(pool@, handles@, index as int, max_width, line_height),
            batch_lays_out(pool@, handles@, index as int, max_width, line_height),
        decreases handles@.len() - index,
    {
        let handle: u32 = handles[index];
        let prepared = match pool.get(handle) {
            Ok(prepared) => prepared,
            Err(error) => {
                proof {
                    assert(batch_fault_at(
                        pool@,
                        handles@,
                        index as int,
                        max_width,
                        line_height,
                        error,
                    ));
                }
                return Err(error);
            },
        };
        let lines: usize = match layout(prepared, max_width, line_height) {
            Ok(result) => result.line_count,
            Err(error) => {
                proof {
                    assert(line_count_at(
                        &pool@.entries[handle].prepared@,
                        max_width,
                        line_height,
                    ) is None);
                    assert(batch_fault_at(
                        pool@,
                        handles@,
                        index as int,
                        max_width,
                        line_height,
                        error,
                    ));
                }
                return Err(error);
            },
        };
        proof {
            assert(line_count_at(&pool@.entries[handle].prepared@, max_width, line_height) == Some(
                lines as nat,
            ));
        }
        total = match total.checked_add(lines) {
            Some(sum) => sum,
            None => {
                let error = Error::ArithmeticOverflow { operation: "summing batch line counts" };
                proof {
                    assert(batch_fault_at(
                        pool@,
                        handles@,
                        index as int,
                        max_width,
                        line_height,
                        error,
                    ));
                }
                return Err(error);
            },
        };
        index += 1;
    }
    narrow_count(total, "converting batch line count to u32")
}

/// Layout a comma-separated batch of handles and return the total line count.
///
/// # Errors
///
/// Returns an error if an argument is invalid, or any handle is malformed,
/// unknown, or cannot be laid out. Partial success is never returned.
pub fn layout_batch<W: Scalar>(
    pool: &PreparedPool<W>,
    handles_csv: &str,
    max_width: W,
    line_height: W,
) -> (r: Result<u32, Error>)
    ensures
        if !nonnegative(max_width) {
            r matches Err(error) && invalid_max_width(error)
        } else if !positive(line_height) {
            r matches Err(error) && invalid_line_height(error)
        } else {
            exists|handles: Result<Seq<u32>, Error>|
                {
                    &&& #[trigger] handles_outcome(handles_csv@, handles)
                    &&& match handles {
                        Err(error) => r == Err::<u32, Error>(error),
                        Ok(list) => batch_layout_outcome(
                            pool@,
                            list,
                            max_width,
                            line_height,
                            r,
                        ),
                    }
                }
        },
{
    if let Err(error) = validate_max_width(max_width) {
        return Err(error);
    }
    if let Err(error) = validate_line_height(line_height) {
        return Err(error);
    }
    let parsed = parse_handles(handles_csv);
    proof {
        assert(handles_outcome(handles_csv@, handle_result(parsed)));
    }
    match parsed {
        Ok(handles) => layout_handles(pool, &handles, max_width, line_height),
        Err(error) => Err(error),
    }
}

/// The pool after the first `count` handles are freed, or `None` where the
/// accounting is short of a charge.
pub open spec fn freed<W>(pool: PoolView<W>, handles: Seq<u32>, count: int) -> Option<PoolView<W>>
    decreases count,
{
    if count <= 0 {
        Some(pool)
    } else {
        match freed(pool, handles, count - 1) {
            None => None,
            Some(before) => {
                let charge = before.entries[handles[count - 1]].charged_bytes;
                if before.charged_bytes < charge {
                    None
                } else {
                    Some(
                        PoolView {
                            entries: before.entries.remove(handles[count - 1]),
                            charged_bytes: (before.charged_bytes - charge) as usize,
                            ..before
                        },
                    )
                }
            },
        }
    }
}

/// Whether all handles are live.
pub open spec fn all_live<W>(pool: PoolView<W>, handles: Seq<u32>, count: int) -> bool {
    forall|i: int| 0 <= i < count ==> pool.entries.contains_key(#[trigger] handles[i])
}

/// What freeing a batch of handles does. The handles are checked before
/// anything is freed.
pub open spec fn free_outcome<W>(
    pool: PoolView<W>,
    handles: Seq<u32>,
    after: PoolView<W>,
    outcome: Result<(), Error>,
) -> bool {
    let count = handles.len() as int;
    if !handles.no_duplicates() {
        &&& outcome matches Err(error) && error.rejects(
            "handles_csv"@,
            "duplicate handles are not allowed"@,
        )
        &&& after == pool
    } else if !all_live(pool, handles, count) {
        &&& outcome matches Err(Error::InvalidHandle { handle }) && exists|i: int|
            {
                &&& 0 <= i < count
                &&& #[trigger] handles[i] == handle
                &&& all_live(pool, handles, i)
                &&& !pool.entries.contains_key(handle)
            }
        &&& after == pool
    } else {
        match freed(pool, handles, count) {
            Some(remaining) => outcome is Ok && after == remaining,
            None => {
                &&& outcome matches Err(error) && state_unavailable(
                    error,
                    "WASM prepared-text memory accounting"@,
                )
                &&& exists|done: int|
                    {
                        &&& 0 <= done < count
                        &&& #[trigger] freed(pool, handles, done) == Some(after)
                        &&& freed(pool, handles, done + 1) is None
                    }
            },
        }
    }
}

/// Whether a list holds a handle twice.
fn has_duplicates(handles: &Vec<u32>) -> (r: bool)
    ensures
        r == !handles@.no_duplicates(),
{
    let mut seen: HashSet<u32> = HashSet::new();
    let mut index: usize = 0;
    while index < handles.len()
        invariant
            index <= handles@.len(),
            forall|handle: u32| #[trigger]
                seen@.contains(handle) <==> (exists|k: int|
                    0 <= k < index && #[trigger] handles@[k] == handle),
            forall|i: int, k: int|
                0 <= i < k < index ==> #[trigger] handles@[i] != #[trigger] handles@[k],
        decreases handles@.len() - index,
    {
        let handle: u32 = handles[index];
        let ghost before = seen@;
        if !seen.insert(handle) {
            proof {
                assert(before.contains(handle));
                let k = choose|k: int| 0 <= k < index && #[trigger] handles@[k] == handle;
                assert(handles@[k] == handles@[index as int]);
            }
            return true;
        }
        proof {
            assert(!before.contains(handle));
            assert forall|other: u32| #[trigger] seen@.contains(other) <==> (exists|k: int|
                0 <= k < index + 1 && #[trigger] handles@[k] == other) by {
                if other == handle {
                    assert(handles@[index as int] == other);
                }
                if before.contains(other) {
                    let k = choose|k: int| 0 <= k < index && #[trigger] handles@[k] == other;
                    assert(0 <= k < index + 1 && handles@[k] == other);
                }
                if exists|k: int| 0 <= k < index + 1 && #[trigger] handles@[k] == other {
                    let k = choose|k: int| 0 <= k < index + 1 && #[trigger] handles@[k] == other;
                    if k < index {
                        assert(0 <= k < index && handles@[k] == other);
                        assert(before.contains(other));
                    }
                }
            }
        }
        index += 1;
    }
    false
}

proof fn lemma_freed_keeps<W>(pool: PoolView<W>, handles: Seq<u32>, count: int, index: int)
    requires
        handles.no_duplicates(),
        0 <= count <= index < handles.len(),
        pool.entries.contains_key(handles[index]),
        freed(pool, handles, count) is Some,
    ensures
        freed(pool, handles, count)->0.entries.contains_key(handles[index]),
    decreases count,
{
    if count > 0 {
        lemma_freed_keeps(pool, handles, count - 1, index);
        assert(handles[count - 1] != handles[index]);
    }
}

proof fn lemma_freed_none<W>(pool: PoolView<W>, handles: Seq<u32>, low: int, high: int)
    requires
        0 <= low <= high,
        freed(pool, handles, low) is None,
    ensures
        freed(pool, handles, high) is None,
    decreases high - low,
{
    if low < high {
        lemma_freed_none(pool, handles, low, high - 1);
    }
}

/// Free a batch of handles.
///
/// # Errors
///
/// Returns an error when any handle is duplicated, unknown, or already freed.
/// Validation happens before mutation.
pub fn free_handles<W: Scalar>(pool: &mut PreparedPool<W>, handles: &Vec<u32>) -> (r: Result<
    (),
    Error,
>)
    ensures
        free_outcome(old(pool)@, handles@, final(pool)@, r),
{
    let ghost before = pool@;
    if has_duplicates(handles) {
        return Err(
            Error::invalid_input("handles_csv", "duplicate handles are not allowed"),
        );
    }
    let mut index: usize = 0;
    while index < handles.len()
        invariant
            index <= handles@.len(),
            pool@ == before,
            before == old(pool)@,
            handles@.no_duplicates(),
            all_live(before, handles@, index as int),
        decreases handles@.len() - index,
    {
        if let Err(error) = pool.get(handles[index]) {
            proof {
                assert(handles@[index as int] == error->InvalidHandle_handle);
            }
            return Err(error);
        }
        index += 1;
    }
    index = 0;
    while index < handles.len()
        invariant
            index <= handles@.len(),
            before == old(pool)@,
            handles@.no_duplicates(),
            all_live(before, handles@, handles@.len() as int),
            freed(before, handles@, index as int) == Some(pool@),
        decreases handles@.len() - index,
    {
        proof {
            lemma_freed_keeps(before, handles@, index as int, index as int);
            if freed(before, handles@, index + 1) is None {
                lemma_freed_none(before, handles@, index + 1, handles@.len() as int);
            }
        }
        if let Err(error) = pool.remove(handles[index]) {
            return Err(error);
        }
        index += 1;
    }
    Ok(())
}

/// Free a comma-separated batch of handles.
///
/// # Errors
///
/// Returns an error when any handle is malformed, duplicated, unknown, or
/// already freed. Validation happens before mutation.
pub fn free_batch<W: Scalar>(pool: &mut PreparedPool<W>, handles_csv: &str) -> (r: Result<
    (),
    Error,
>)
    ensures
        exists|handles: Result<Seq<u32>, Error>|
            {
                &&& #[trigger] handles_outcome(handles_csv@, handles)
                &&& match handles {
                    Err(error) => r == Err::<(), Error>(error) && final(pool)@ == old(pool)@,
                    Ok(list) => free_outcome(old(pool)@, list, final(pool)@, r),
                }
            },
{
    let parsed = parse_handles(handles_csv);
    let ghost handles = handle_result(parsed);
    proof {
        assert(handles_outcome(handles_csv@, handles));
    }
    match parsed {
        Ok(list) => free_handles(pool, &list),
        Err(error) => Err(error),
    }
}

/// The texts of a JSON array of strings, or what is wrong with it.
pub uninterp spec fn json_texts(json: Seq<char>) -> Result<Seq<Seq<char>>, Seq<char>>;

/// `serde_json::from_str` for a vector of strings, its error in words.
///
/// Claimed of it: the outcome depends on the text alone. The JSON grammar is
/// left to the crate.
#[verifier::external_body]
fn parse_texts(json: &str) -> (r: Result<Vec<String>, String>)
    ensures
        match json_texts(json@) {
            Ok(texts) => r matches Ok(strings) && views(strings@) == texts,
            Err(fault) => r matches Err(message) && message@ == fault,
        },
{
    serde_json::from_str::<Vec<String>>(json).map_err(|error| error.to_string())
}

/// The number of grapheme clusters of the first `count` texts.
pub open spec fn batch_clusters(texts: Seq<Seq<char>>, count: int) -> nat
    decreases count,
{
    if count <= 0 {
        0
    } else {
        batch_clusters(texts, count - 1) + grapheme_clusters(texts[count - 1]).len()
    }
}

/// Whether a batch of texts is within the limits.
pub open spec fn batch_fits(texts: Seq<Seq<char>>) -> bool {
    &&& texts.len() <= MAX_BATCH_ITEMS
    &&& batch_clusters(texts, texts.len() as int) <= MAX_BATCH_GRAPHEMES
}

/// Whether `error` says that a batch of texts is not within the limits.
pub open spec fn batch_size_fault(texts: Seq<Seq<char>>, error: Error) -> bool {
    let clusters = batch_clusters(texts, texts.len() as int);
    if texts.len() > MAX_BATCH_ITEMS {
        error.rejects("texts_json"@, "batch exceeds 1024 texts"@)
    } else if clusters > usize::MAX {
        overflow_in(error, "counting WASM batch graphemes"@)
    } else {
        error.exceeds("WASM batch graphemes"@, clusters, MAX_BATCH_GRAPHEMES as nat)
    }
}

proof fn lemma_batch_clusters(texts: Seq<Seq<char>>, low: int, high: int)
    requires
        0 <= low <= high,
    ensures
        batch_clusters(texts, low) <= batch_clusters(texts, high),
    decreases high - low,
{
    if low < high {
        lemma_batch_clusters(texts, low, high - 1);
    }
}

fn validate_batch(texts: &Vec<String>) -> (r: Result<(), Error>)
    ensures
        match r {
            Ok(()) => batch_fits(views(texts@)),
            Err(error) => !batch_fits(views(texts@)) && batch_size_fault(views(texts@), error),
        },
{
    let ghost all = views(texts@);
    if texts.len() > MAX_BATCH_ITEMS {
        return Err(Error::invalid_input("texts_json", "batch exceeds 1024 texts"));
    }
    let mut clusters: usize = 0;
    let mut index: usize = 0;
    while index < texts.len()
        invariant
            index <= texts@.len() <= MAX_BATCH_ITEMS,
            all == views(texts@),
            clusters == batch_clusters(all, index as int),
        decreases texts@.len() - index,
    {
        let found = graphemes(texts[index].as_str());
        proof {
            assert(all[index as int] == texts@[index as int]@);
            assert(views(found@).len() == found@.len());
            lemma_batch_clusters(all, index + 1, all.len() as int);
        }
        clusters = match clusters.checked_add(found.len()) {
            Some(sum) => sum,
            None => {
                return Err(
                    Error::ArithmeticOverflow { operation: "counting WASM batch graphemes" },
                );
            },
        };
        index += 1;
    }
    if clusters > MAX_BATCH_GRAPHEMES {
        return Err(
            Error::InputComplexity {
                resource: "WASM batch graphemes",
                units: clusters,
                max_units: MAX_BATCH_GRAPHEMES,
            },
        );
    }
    Ok(())
}

/// Whether a backend may have prepared the first texts of a batch as these
/// values, each with the size of its text.
pub open spec fn batch_prepared<W: Scalar, B: MeasureBackend<W>>(
    texts: Seq<Seq<char>>,
    font: FontView<W>,
    options: PrepareOptions<W>,
    backend: &B,
    values: Seq<(PreparedText<W>, usize)>,
) -> bool {
    &&& values.len() <= texts.len()
    &&& forall|i: int|
        0 <= i < values.len() ==> {
            &&& (#[trigger] values[i]).1 == byte_count(texts[i])
            &&& prepare_outcome(texts[i], font, backend, options, Ok(values[i].0@))
        }
}

/// The handles of a batch as a comma-separated list, before handle `count`.
pub open spec fn handle_list(handles: Seq<u32>, count: int) -> Seq<char>
    decreases count,
{
    if count <= 0 {
        Seq::empty()
    } else if count == 1 {
        numeral(handles[0] as nat)
    } else {
        handle_list(handles, count - 1) + seq![','] + numeral(handles[count - 1] as nat)
    }
}

/// What storing a batch of prepared texts may do.
pub open spec fn batch_stored<W: Scalar>(
    before: PoolView<W>,
    values: Seq<(PreparedText<W>, usize)>,
    after: PoolView<W>,
    outcome: Result<Seq<char>, Error>,
) -> bool {
    exists|handles: Result<Seq<u32>, Error>|
        {
            &&& #[trigger] batch_inserted(before, values, after, handles)
            &&& match handles {
                Ok(list) => outcome == Ok::<Seq<char>, Error>(
                    handle_list(list, list.len() as int),
                ),
                Err(error) => outcome == Err::<Seq<char>, Error>(error),
            }
        }
}

/// What preparing a batch of texts may do. The pool changes only once the
/// complete batch is prepared.
pub open spec fn batch_prepare_outcome<W: Scalar, B: MeasureBackend<W>>(
    before: PoolView<W>,
    texts: Seq<Seq<char>>,
    font_css: Seq<char>,
    white_space: Seq<char>,
    backend: &B,
    after: PoolView<W>,
    outcome: Result<Seq<char>, Error>,
) -> bool {
    if !batch_fits(texts) {
        &&& outcome matches Err(error) && batch_size_fault(texts, error)
        &&& after == before
    } else if !request_valid::<W>(font_css, white_space) {
        &&& outcome matches Err(error) && request_fault::<W>(font_css, white_space, error)
        &&& after == before
    } else {
        let font = parsed_font::<W>(font_css)->Ok_0;
        let options = request_options(mode_named(white_space)->0);
        exists|values: Seq<(PreparedText<W>, usize)>|
            {
                &&& #[trigger] batch_prepared(texts, font, options, backend, values)
                &&& if values.len() == texts.len() {
                    batch_stored(before, values, after, outcome)
                } else {
                    &&& outcome matches Err(error) && prepare_outcome(
                        texts[values.len() as int],
                        font,
                        backend,
                        options,
                        Err(error),
                    )
                    &&& after == before
                }
            }
    }
}

/// A string as a value, or the error.
pub open spec fn text_result(result: Result<String, Error>) -> Result<Seq<char>, Error> {
    match result {
        Ok(text) => Ok(text@),
        Err(error) => Err(error),
    }
}

/// Write handles as a comma-separated list.
fn join_handles(handles: &Vec<u32>) -> (r: String)
    ensures
        r@ == handle_list(handles@, handles@.len() as int),
{
    let mut list = String::new();
    let mut index: usize = 0;
    proof {
        assert(list@ =~= Seq::empty());
    }
    while index < handles.len()
        invariant
            index <= handles@.len(),
            list@ == handle_list(handles@, index as int),
        decreases handles@.len() - index,
    {
        let ghost before = list@;
        if index > 0 {
            list.push(',');
        }
        push_numeral(&mut list, handles[index] as u64);
        index += 1;
        proof {
            assert(list@ =~= handle_list(handles@, index as int));
        }
    }
    list
}

/// What preparing the texts of a batch may give.
pub open spec fn values_outcome<W: Scalar, B: MeasureBackend<W>>(
    texts: Seq<Seq<char>>,
    font_css: Seq<char>,
    white_space: Seq<char>,
    backend: &B,
    outcome: Result<Seq<(PreparedText<W>, usize)>, Error>,
) -> bool {
    if !batch_fits(texts) {
        outcome matches Err(error) && batch_size_fault(texts, error)
    } else if !request_valid::<W>(font_css, white_space) {
        outcome matches Err(error) && request_fault::<W>(font_css, white_space, error)
    } else {
        let font = parsed_font::<W>(font_css)->Ok_0;
        let options = request_options(mode_named(white_space)->0);
        match outcome {
            Ok(values) => values.len() == texts.len() && batch_prepared(
                texts,
                font,
                options,
                backend,
                values,
            ),
            Err(error) => exists|values: Seq<(PreparedText<W>, usize)>|
                {
                    &&& #[trigger] batch_prepared(texts, font, options, backend, values)
                    &&& values.len() < texts.len()
                    &&& prepare_outcome(
                        texts[values.len() as int],
                        font,
                        backend,
                        options,
                        Err(error),
                    )
                },
        }
    }
}

/// Prepared texts as values, or the error.
pub open spec fn values_result<W>(result: Result<Vec<(PreparedText<W>, usize)>, Error>) -> Result<
    Seq<(PreparedText<W>, usize)>,
    Error,
> {
    match result {
        Ok(values) => Ok(values@),
        Err(error) => Err(error),
    }
}

/// Prepare the texts of a batch, each with the size of its input.
///
/// # Errors
///
/// Returns an error for an oversized batch, an invalid font or mode, or a text
/// that cannot be prepared.
pub fn prepare_values<W: Scalar, B: MeasureBackend<W>>(
    texts: &Vec<String>,
    font_css: &str,
    white_space: &str,
    backend: &B,
) -> (r: Result<Vec<(PreparedText<W>, usize)>, Error>)
    ensures
        values_outcome(views(texts@), font_css@, white_space@, backend, values_result(r)),
{
    let ghost all = views(texts@);
    if let Err(error) = validate_batch(texts) {
        return Err(error);
    }
    let font = match parse_font::<W>(font_css) {
        Ok(font) => font,
        Err(error) => {
            return Err(error);
        },
    };
    let options = match prepare_options::<W>(white_space) {
        Ok(options) => options,
        Err(error) => {
            return Err(error);
        },
    };
    let mut values: Vec<(PreparedText<W>, usize)> = Vec::new();
    let mut index: usize = 0;
    while index < texts.len()
        invariant
            index <= texts@.len(),
            all == views(texts@),
            batch_fits(all),
            request_valid::<W>(font_css@, white_space@),
            font@ == parsed_font::<W>(font_css@)->Ok_0,
            options == request_options::<W>(mode_named(white_space@)->0),
            values@.len() == index,
            batch_prepared(all, font@, options, backend, values@),
        decreases texts@.len() - index,
    {
        let text = texts[index].as_str();
        proof {
            assert(all[index as int] == text@);
        }
        match prepare(text, &font, backend, options) {
            Ok(prepared) => {
                let ghost prior = values@;
                values.push((prepared, text.len()));
                proof {
                    assert forall|i: int| 0 <= i < values@.len() implies {
                        &&& (#[trigger] values@[i]).1 == byte_count(all[i])
                        &&& prepare_outcome(all[i], font@, backend, options, Ok(values@[i].0@))
                    } by {
                        if i < prior.len() {
                            assert(values@[i] == prior[i]);
                        }
                    }
                }
            },
            Err(error) => {
                proof {
                    assert(batch_prepared(all, font@, options, backend, values@));
                }
                return Err(error);
            },
        }
        index += 1;
    }
    Ok(values)
}

/// Store prepared texts and return comma-separated handles.
///
/// # Errors
///
/// Returns an error, and leaves the pool as it is, when they do not fit or no
/// handles are left.
pub fn store_values<W: Scalar>(
    pool: &mut PreparedPool<W>,
    values: Vec<(PreparedText<W>, usize)>,
) -> (r: Result<String, Error>)
    ensures
        batch_stored(old(pool)@, values@, final(pool)@, text_result(r)),
        r is Err ==> final(pool)@ == old(pool)@,
{
    let ghost before = pool@;
    let ghost stored = values@;
    let inserted = pool.insert_batch(values);
    let ghost handles = handle_result(inserted);
    proof {
        assert(batch_inserted(before, stored, pool@, handles));
    }
    match inserted {
        Ok(list) => Ok(join_handles(&list)),
        Err(error) => Err(error),
    }
}

/// Prepare a batch of texts and return comma-separated handles.
///
/// The complete batch is prepared before the pool is mutated.
///
/// # Errors
///
/// Returns an error for an oversized batch, a preparation failure, or
/// insufficient pool capacity.
pub fn prepare_texts<W: Scalar, B: MeasureBackend<W>>(
    pool: &mut PreparedPool<W>,
    texts: &Vec<String>,
    font_css: &str,
    white_space: &str,
    backend: &B,
) -> (r: Result<String, Error>)
    ensures
        batch_prepare_outcome(
            old(pool)@,
            views(texts@),
            font_css@,
            white_space@,
            backend,
            final(pool)@,
            text_result(r),
        ),
        r is Err ==> final(pool)@ == old(pool)@,
{
    let prepared = prepare_values(texts, font_css, white_space, backend);
    match prepared {
        Ok(values) => store_values(pool, values),
        Err(error) => Err(error),
    }
}

/// Whether nothing is wrong with a request for a batch, whatever its texts
/// measure.
pub open spec fn batch_request_valid<W: Scalar>(
    json: Seq<char>,
    font_css: Seq<char>,
    white_space: Seq<char>,
) -> bool {
    &&& byte_count(json) <= MAX_BATCH_INPUT_BYTES
    &&& json_texts(json) matches Ok(texts) && batch_fits(texts)
    &&& request_valid::<W>(font_css, white_space)
}

/// Read the texts of a request for a batch, and say what is wrong with it before
/// anything is measured.
///
/// # Errors
///
/// Returns an error for malformed JSON, an oversized batch, or an invalid font
/// or mode.
pub fn read_batch<W: Scalar>(texts_json: &str, font_css: &str, white_space: &str) -> (r: Result<
    Vec<String>,
    Error,
>)
    ensures
        r is Ok <==> batch_request_valid::<W>(texts_json@, font_css@, white_space@),
        r matches Ok(texts) ==> json_texts(texts_json@) == Ok::<Seq<Seq<char>>, Seq<char>>(
            views(texts@),
        ),
        r matches Err(error) ==> if byte_count(texts_json@) > MAX_BATCH_INPUT_BYTES {
            error == (Error::InputTooLarge {
                bytes: byte_count(texts_json@),
                max_bytes: MAX_BATCH_INPUT_BYTES,
            })
        } else {
            match json_texts(texts_json@) {
                Err(fault) => error.rejects("texts_json"@, fault),
                Ok(texts) => if !batch_fits(texts) {
                    batch_size_fault(texts, error)
                } else {
                    request_fault::<W>(font_css@, white_space@, error)
                },
            }
        },
{
    let bytes: usize = texts_json.len();
    if bytes > MAX_BATCH_INPUT_BYTES {
        return Err(Error::InputTooLarge { bytes, max_bytes: MAX_BATCH_INPUT_BYTES });
    }
    let texts = match parse_texts(texts_json) {
        Ok(texts) => texts,
        Err(fault) => {
            return Err(Error::invalid_input("texts_json", fault.as_str()));
        },
    };
    if let Err(error) = validate_batch(&texts) {
        return Err(error);
    }
    if let Err(error) = parse_font::<W>(font_css) {
        return Err(error);
    }
    match prepare_options::<W>(white_space) {
        Ok(_) => Ok(texts),
        Err(error) => Err(error),
    }
}

/// What preparing a JSON array of texts may do.
pub open spec fn json_prepare_outcome<W: Scalar, B: MeasureBackend<W>>(
    before: PoolView<W>,
    json: Seq<char>,
    font_css: Seq<char>,
    white_space: Seq<char>,
    backend: &B,
    after: PoolView<W>,
    outcome: Result<Seq<char>, Error>,
) -> bool {
    if byte_count(json) > MAX_BATCH_INPUT_BYTES {
        &&& outcome == Err::<Seq<char>, Error>(
            Error::InputTooLarge { bytes: byte_count(json), max_bytes: MAX_BATCH_INPUT_BYTES },
        )
        &&& after == before
    } else {
        match json_texts(json) {
            Err(fault) => {
                &&& outcome matches Err(error) && error.rejects("texts_json"@, fault)
                &&& after == before
            },
            Ok(texts) => batch_prepare_outcome(
                before,
                texts,
                font_css,
                white_space,
                backend,
                after,
                outcome,
            ),
        }
    }
}

/// Prepare a JSON array of strings and return comma-separated handles.
///
/// The complete batch is prepared before the pool is mutated.
///
/// # Errors
///
/// Returns an error for malformed JSON, an oversized batch, a preparation
/// failure, or insufficient pool capacity.
pub fn prepare_batch<W: Scalar, B: MeasureBackend<W>>(
    pool: &mut PreparedPool<W>,
    texts_json: &str,
    font_css: &str,
    white_space: &str,
    backend: &B,
) -> (r: Result<String, Error>)
    ensures
        json_prepare_outcome(
            old(pool)@,
            texts_json@,
            font_css@,
            white_space@,
            backend,
            final(pool)@,
            text_result(r),
        ),
        r is Err ==> final(pool)@ == old(pool)@,
{
    let bytes: usize = texts_json.len();
    if bytes > MAX_BATCH_INPUT_BYTES {
        return Err(Error::InputTooLarge { bytes, max_bytes: MAX_BATCH_INPUT_BYTES });
    }
    match parse_texts(texts_json) {
        Ok(texts) => prepare_texts(pool, &texts, font_css, white_space, backend),
        Err(fault) => Err(Error::invalid_input("texts_json", fault.as_str())),
    }
}

} // verus!
