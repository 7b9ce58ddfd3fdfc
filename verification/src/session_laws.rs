//! What holds of a pool, whatever is inserted and freed: its account is the sum
//! of what its entries are charged with, and it stays within its limits.
use crate::decimal::{is_digit, numeral, numeral_value, numerals_read_back};
use crate::error::Error;
use crate::layout_unit::power_of_ten;
use crate::scalar::Scalar;
use crate::session::{
    all_live, batch_layout_outcome, batch_lines, free_outcome, freed, handle_layout_outcome,
    handle_list, handles_from, handles_outcome, monotonic_pools_do_not_collide, next_comma,
    stored_under, total_charge, PoolView, StoredPrepared, MAX_BATCH_ITEMS, MAX_POOL_BYTES,
    MAX_POOL_ENTRIES,
};
use crate::text::{skip_white, trimmed, white_end};
use crate::types::PreparedText;
use crate::unicode::white_space;
use vstd::prelude::*;
use vstd::utf8::{is_ascii_chars, is_ascii_chars_encode_utf8};

verus! {

/// What the entries under handles below a bound are charged with.
pub open spec fn charge_below<W>(entries: Map<u32, StoredPrepared<W>>, bound: int) -> nat
    decreases bound,
{
    if bound <= 0 {
        0
    } else {
        let handle = (bound - 1) as u32;
        charge_below(entries, bound - 1) + if entries.contains_key(handle) {
            entries[handle].charged_bytes as nat
        } else {
            0
        }
    }
}

/// What all entries are charged with.
pub open spec fn charge_of<W>(entries: Map<u32, StoredPrepared<W>>) -> nat {
    charge_below(entries, u32::MAX + 1)
}

/// Whether a pool is in order: its account is the sum of the charges of its
/// entries, and neither its entries nor its account are above the limits.
pub open spec fn in_order<W>(pool: PoolView<W>) -> bool {
    &&& pool.monotonic()
    &&& pool.charged_bytes == charge_of(pool.entries)
    &&& pool.entries.dom().finite()
    &&& pool.entries.len() <= MAX_POOL_ENTRIES
    &&& pool.charged_bytes <= MAX_POOL_BYTES
}

proof fn lemma_charge_same<W>(
    a: Map<u32, StoredPrepared<W>>,
    b: Map<u32, StoredPrepared<W>>,
    handle: u32,
    bound: int,
)
    requires
        0 <= bound <= handle,
        forall|key: u32|
            key != handle ==> (#[trigger] a.contains_key(key) == b.contains_key(key)) && (
            a.contains_key(key) ==> a[key] == b[key]),
    ensures
        charge_below(a, bound) == charge_below(b, bound),
    decreases bound,
{
    if bound > 0 {
        lemma_charge_same(a, b, handle, bound - 1);
        assert(a.contains_key((bound - 1) as u32) == b.contains_key((bound - 1) as u32));
    }
}

/// Adding an entry under a free handle adds its charge.
proof fn lemma_charge_insert<W>(
    entries: Map<u32, StoredPrepared<W>>,
    handle: u32,
    stored: StoredPrepared<W>,
    bound: int,
)
    requires
        !entries.contains_key(handle),
        handle < bound <= u32::MAX + 1,
    ensures
        charge_below(entries.insert(handle, stored), bound) == charge_below(entries, bound)
            + stored.charged_bytes,
    decreases bound,
{
    let after = entries.insert(handle, stored);
    if bound - 1 == handle {
        lemma_charge_same(entries, after, handle, bound - 1);
    } else {
        lemma_charge_insert(entries, handle, stored, bound - 1);
        assert(after.contains_key((bound - 1) as u32) == entries.contains_key((bound - 1) as u32));
    }
}

proof fn lemma_charge_stored<W>(
    pool: PoolView<W>,
    values: Seq<PreparedText<W>>,
    charges: Seq<usize>,
    total: nat,
    count: int,
)
    requires
        0 <= count <= total,
        total > 0,
        pool.has_handles(total),
        !pool.collides(total),
        pool.entries.dom().finite(),
    ensures
        ({
            let stored = stored_under(pool.entries, pool.handles(total), values, charges, count);
            &&& charge_of(stored) == charge_of(pool.entries) + total_charge(charges, count)
            &&& stored.dom().finite()
            &&& stored.len() == pool.entries.len() + count
            &&& forall|key: u32| #[trigger]
                stored.contains_key(key) ==> pool.entries.contains_key(key) || pool.next_id <= key
                    < pool.next_id + count
        }),
    decreases count,
{
    if count > 0 {
        lemma_charge_stored(pool, values, charges, total, count - 1);
        let before = stored_under(pool.entries, pool.handles(total), values, charges, count - 1);
        let handle = pool.handles(total)[count - 1];
        let stored = StoredPrepared {
            prepared: values[count - 1],
            charged_bytes: charges[count - 1],
        };
        assert(handle == pool.next_id + count - 1);
        assert(!pool.entries.contains_key(handle)) by {
            assert(pool.entries.contains_key(pool.handles(total)[count - 1])
                == pool.entries.contains_key(handle));
        }
        assert(!before.contains_key(handle));
        lemma_charge_insert(before, handle, stored, u32::MAX + 1);
    }
}

proof fn lemma_no_charge<W>(bound: int)
    ensures
        charge_below(Map::<u32, StoredPrepared<W>>::empty(), bound) == 0,
    decreases bound,
{
    if bound > 0 {
        lemma_no_charge::<W>(bound - 1);
    }
}

/// An empty pool is in order.
pub proof fn empty_pools_are_in_order<W>(pool: PoolView<W>)
    requires
        pool.entries == Map::<u32, StoredPrepared<W>>::empty(),
        pool.charged_bytes == 0,
    ensures
        in_order(pool),
{
    lemma_no_charge::<W>(u32::MAX + 1);
}

/// Inserting keeps a pool in order, and so within its limits; a batch that is
/// refused leaves it as it was.
pub proof fn inserting_keeps_order<W>(
    pool: PoolView<W>,
    values: Seq<PreparedText<W>>,
    charges: Seq<usize>,
    after: PoolView<W>,
    outcome: Result<Seq<u32>, Error>,
)
    requires
        in_order(pool),
        pool.inserting(values, charges, after, outcome),
    ensures
        in_order(after),
        outcome is Err ==> after == pool,
{
    let count = values.len();
    if count > 0 && outcome is Ok {
        monotonic_pools_do_not_collide(pool, count);
        lemma_charge_stored(pool, values, charges, count, count as int);
    }
}

/// Freeing a live handle of a pool in order succeeds, since the account holds
/// its charge, and keeps the pool in order.
pub proof fn freeing_a_live_handle_succeeds<W>(pool: PoolView<W>, handle: u32)
    requires
        in_order(pool),
        pool.entries.contains_key(handle),
    ensures
        pool.entries[handle].charged_bytes <= pool.charged_bytes,
        in_order(
            PoolView {
                entries: pool.entries.remove(handle),
                charged_bytes: (pool.charged_bytes - pool.entries[handle].charged_bytes) as usize,
                ..pool
            },
        ),
{
    let rest = pool.entries.remove(handle);
    lemma_charge_insert(rest, handle, pool.entries[handle], u32::MAX + 1);
    assert(rest.insert(handle, pool.entries[handle]) =~= pool.entries);
}

proof fn lemma_freed_in_order<W>(pool: PoolView<W>, handles: Seq<u32>, count: int)
    requires
        in_order(pool),
        0 <= count <= handles.len(),
        handles.no_duplicates(),
        all_live(pool, handles, handles.len() as int),
    ensures
        freed(pool, handles, count) matches Some(after) && {
            &&& in_order(after)
            &&& forall|i: int|
                count <= i < handles.len() ==> after.entries.contains_key(#[trigger] handles[i])
        },
    decreases count,
{
    if count > 0 {
        lemma_freed_in_order(pool, handles, count - 1);
        let before = freed(pool, handles, count - 1)->0;
        assert(before.entries.contains_key(handles[count - 1]));
        freeing_a_live_handle_succeeds(before, handles[count - 1]);
        let after = freed(pool, handles, count)->0;
        assert forall|i: int| count <= i < handles.len() implies after.entries.contains_key(
            #[trigger] handles[i],
        ) by {
            assert(before.entries.contains_key(handles[i]));
            assert(handles[i] != handles[count - 1]);
        }
    } else {
        assert forall|i: int| count <= i < handles.len() implies pool.entries.contains_key(
            #[trigger] handles[i],
        ) by {}
    }
}

/// Freeing a batch is all or nothing: a batch that is refused leaves the pool as
/// it was, and one of live handles without duplicates is not refused.
pub proof fn freeing_is_all_or_nothing<W>(
    pool: PoolView<W>,
    handles: Seq<u32>,
    after: PoolView<W>,
    outcome: Result<(), Error>,
)
    requires
        in_order(pool),
        free_outcome(pool, handles, after, outcome),
    ensures
        in_order(after),
        outcome is Err ==> after == pool,
        outcome is Ok <==> handles.no_duplicates() && all_live(
            pool,
            handles,
            handles.len() as int,
        ),
{
    if handles.no_duplicates() && all_live(pool, handles, handles.len() as int) {
        lemma_freed_in_order(pool, handles, handles.len() as int);
    }
}

// ---- Lists of handles ------------------------------------------------------------------------

/// The handles before the last of a list stand at its start, followed by a
/// comma.
proof fn lemma_list_prefix(handles: Seq<u32>, count: int, total: int)
    requires
        0 < count <= total <= handles.len(),
    ensures
        ({
            let list = handle_list(handles, total);
            let length = handle_list(handles, count).len() as int;
            &&& length <= list.len()
            &&& list.take(length) == handle_list(handles, count)
            &&& count < total ==> length < list.len() && list[length] == ','
            &&& count == total ==> length == list.len()
        }),
    decreases total - count,
{
    let list = handle_list(handles, total);
    let length = handle_list(handles, count).len() as int;
    if count < total {
        lemma_list_prefix(handles, count, total - 1);
        let shorter = handle_list(handles, total - 1);
        assert(list == shorter + seq![','] + numeral(handles[total - 1] as nat));
        assert(list.take(length) =~= shorter.take(length));
        if count == total - 1 {
            assert(shorter.take(length) =~= shorter);
            assert(list[length] == ',');
        } else {
            assert(list[length] == shorter[length]);
        }
    } else {
        assert(list.take(length) =~= list);
    }
}

/// Where the numeral at `index` of a list starts.
spec fn numeral_start(handles: Seq<u32>, index: int) -> int {
    if index <= 0 {
        0
    } else {
        handle_list(handles, index).len() as int + 1
    }
}

proof fn lemma_next_comma(text: Seq<char>, from: int, end: int)
    requires
        0 <= from <= end <= text.len(),
        forall|k: int| from <= k < end ==> #[trigger] text[k] != ',',
        end < text.len() ==> text[end] == ',',
    ensures
        next_comma(text, from) == end,
    decreases end - from,
{
    if from < end {
        lemma_next_comma(text, from + 1, end);
    }
}

proof fn lemma_trimmed_numeral(n: nat)
    ensures
        trimmed(numeral(n)) == numeral(n),
{
    numerals_read_back(n);
    let text = numeral(n);
    assert(!white_space(text[0]));
    assert(!white_space(text[text.len() - 1]));
    assert(skip_white(text, 0) == 0);
    assert(white_end(text, 0, text.len() as int) == text.len());
    assert(trimmed(text) =~= text);
}

proof fn lemma_handles_from(handles: Seq<u32>, index: int)
    requires
        0 <= index < handles.len(),
    ensures
        handles_from(handle_list(handles, handles.len() as int), numeral_start(handles, index))
            == Ok::<Seq<u32>, Seq<char>>(handles.skip(index)),
    decreases handles.len() - index,
{
    let total = handles.len() as int;
    let list = handle_list(handles, total);
    let word = numeral(handles[index] as nat);
    let from = numeral_start(handles, index);
    let through = handle_list(handles, index + 1);
    let end = through.len() as int;
    numerals_read_back(handles[index] as nat);
    lemma_trimmed_numeral(handles[index] as nat);
    lemma_list_prefix(handles, index + 1, total);
    if index == 0 {
        assert(through == word);
    } else {
        assert(through == handle_list(handles, index) + seq![','] + word);
    }
    assert(through.subrange(from, end) =~= word);
    assert(list.subrange(from, end) =~= list.take(end).subrange(from, end));
    assert forall|k: int| from <= k < end implies #[trigger] list[k] != ',' by {
        assert(list[k] == list.subrange(from, end)[k - from]);
        assert(is_digit(word[k - from]));
    }
    lemma_next_comma(list, from, end);
    assert(word[0] != '+') by {
        assert(is_digit(word[0]));
    }
    assert(numeral_value(word) == handles[index]);
    if index + 1 < total {
        lemma_handles_from(handles, index + 1);
        assert(numeral_start(handles, index + 1) == end + 1);
        assert(seq![handles[index]] + handles.skip(index + 1) =~= handles.skip(index));
    } else {
        assert(list.subrange(from, list.len() as int) =~= word);
        assert(seq![handles[index]] =~= handles.skip(index));
    }
}

proof fn lemma_numeral_length(n: nat, digits: nat)
    requires
        digits > 0,
        n < power_of_ten(digits),
    ensures
        numeral(n).len() <= digits,
    decreases digits,
{
    if n >= 10 {
        assert(digits > 1) by {
            if digits == 1 {
                assert(power_of_ten(0) == 1);
            }
        }
        lemma_numeral_length(n / 10, (digits - 1) as nat);
    }
}

proof fn lemma_list_size(handles: Seq<u32>, count: int)
    requires
        0 <= count <= handles.len(),
    ensures
        is_ascii_chars(handle_list(handles, count)),
        handle_list(handles, count).len() <= 11 * count,
        forall|k: int|
            0 <= k < handle_list(handles, count).len() ==> !white_space(
                #[trigger] handle_list(handles, count)[k],
            ),
    decreases count,
{
    if count > 0 {
        let last = numeral(handles[count - 1] as nat);
        let list = handle_list(handles, count);
        let shorter = handle_list(handles, count - 1);
        lemma_list_size(handles, count - 1);
        numerals_read_back(handles[count - 1] as nat);
        reveal_with_fuel(power_of_ten, 11);
        lemma_numeral_length(handles[count - 1] as nat, 10);
        assert forall|k: int| 0 <= k < list.len() implies {
            &&& (#[trigger] list[k]) as nat <= 127
            &&& !white_space(list[k])
        } by {
            if count > 1 && k < shorter.len() {
                assert(list[k] == shorter[k]);
            } else if count > 1 && k > shorter.len() {
                assert(is_digit(last[k - shorter.len() - 1]));
            } else if count == 1 {
                assert(is_digit(last[k]));
            }
        }
    }
}

/// A list of handles reads back: what preparing a batch returns is what laying
/// out and freeing a batch take.
pub proof fn handle_lists_read_back(handles: Seq<u32>)
    requires
        handles.len() <= MAX_BATCH_ITEMS,
    ensures
        handles_outcome(
            handle_list(handles, handles.len() as int),
            Ok::<Seq<u32>, Error>(handles),
        ),
{
    let list = handle_list(handles, handles.len() as int);
    lemma_list_size(handles, handles.len() as int);
    is_ascii_chars_encode_utf8(list);
    if handles.len() > 0 {
        lemma_handles_from(handles, 0);
        assert(handles.skip(0) =~= handles);
        lemma_list_prefix(handles, 1, handles.len() as int);
        numerals_read_back(handles[0] as nat);
        assert(list.len() > 0);
        assert(!white_space(list[0]));
        assert(!white_space(list[list.len() - 1]));
        assert(skip_white(list, 0) == 0);
        assert(white_end(list, 0, list.len() as int) == list.len());
        assert(trimmed(list) =~= list);
    } else {
        assert(trimmed(list) =~= Seq::empty());
        assert(handles =~= Seq::empty());
    }
}

// ---- What operations leave behind --------------------------------------------------------------

proof fn lemma_freed_entries<W>(pool: PoolView<W>, handles: Seq<u32>, count: int, handle: u32)
    requires
        0 <= count <= handles.len(),
        handles.no_duplicates(),
    ensures
        freed(pool, handles, count) matches Some(after) ==> {
            &&& after.next_id == pool.next_id
            &&& after.entries.contains_key(handle) == (pool.entries.contains_key(handle)
                && !handles.take(count).contains(handle))
            &&& after.entries.contains_key(handle) ==> after.entries[handle]
                == pool.entries[handle]
        },
    decreases count,
{
    if count > 0 {
        lemma_freed_entries(pool, handles, count - 1, handle);
        let longer = handles.take(count);
        let shorter = handles.take(count - 1);
        assert(longer =~= shorter.push(handles[count - 1]));
        if shorter.contains(handle) {
            let i = choose|i: int| 0 <= i < shorter.len() && shorter[i] == handle;
            assert(longer[i] == handle);
        }
        if longer.contains(handle) && handle != handles[count - 1] {
            let i = choose|i: int| 0 <= i < longer.len() && longer[i] == handle;
            assert(shorter[i] == handle);
        }
        assert(longer[count - 1] == handles[count - 1]);
    } else {
        assert(handles.take(0) =~= Seq::empty());
    }
}

/// Freeing a batch takes away its handles and no others: each of them is gone,
/// every other text is where it was, and none is handed out again.
pub proof fn freeing_takes_away_just_the_handles<W>(
    pool: PoolView<W>,
    handles: Seq<u32>,
    after: PoolView<W>,
    handle: u32,
)
    requires
        free_outcome(pool, handles, after, Ok(())),
    ensures
        after.next_id == pool.next_id,
        after.entries.contains_key(handle) == (pool.entries.contains_key(handle)
            && !handles.contains(handle)),
        after.entries.contains_key(handle) ==> after.entries[handle] == pool.entries[handle],
{
    lemma_freed_entries(pool, handles, handles.len() as int, handle);
    assert(handles.take(handles.len() as int) =~= handles);
}

/// Counts added up.
pub open spec fn sum_of_counts(counts: Seq<u32>) -> nat
    decreases counts.len(),
{
    if counts.len() == 0 {
        0
    } else {
        counts.first() as nat + sum_of_counts(counts.skip(1))
    }
}

proof fn lemma_sum_of_counts_push(counts: Seq<u32>, count: u32)
    ensures
        sum_of_counts(counts.push(count)) == sum_of_counts(counts) + count,
    decreases counts.len(),
{
    if counts.len() == 0 {
        assert(counts.push(count).skip(1) =~= Seq::empty());
        assert(sum_of_counts(counts.push(count).skip(1)) == 0);
    } else {
        assert(counts.push(count).skip(1) =~= counts.skip(1).push(count));
        lemma_sum_of_counts_push(counts.skip(1), count);
    }
}

proof fn lemma_batch_lines_add_up<W: Scalar>(
    pool: PoolView<W>,
    handles: Seq<u32>,
    max_width: W,
    line_height: W,
    counts: Seq<u32>,
    count: int,
)
    requires
        0 <= count <= handles.len() == counts.len(),
        forall|i: int|
            0 <= i < handles.len() ==> handle_layout_outcome(
                pool,
                #[trigger] handles[i],
                max_width,
                line_height,
                Ok(counts[i]),
            ),
    ensures
        batch_lines(pool, handles, count, max_width, line_height) == sum_of_counts(
            counts.take(count),
        ),
    decreases count,
{
    if count > 0 {
        lemma_batch_lines_add_up(pool, handles, max_width, line_height, counts, count - 1);
        assert(counts.take(count) =~= counts.take(count - 1).push(counts[count - 1]));
        lemma_sum_of_counts_push(counts.take(count - 1), counts[count - 1]);
        assert(handle_layout_outcome(
            pool,
            handles[count - 1],
            max_width,
            line_height,
            Ok(counts[count - 1]),
        ));
    } else {
        assert(counts.take(0) =~= Seq::empty());
    }
}

/// Laying out a batch counts what laying out its handles one by one counts: the
/// total is the sum of the line counts.
pub proof fn a_batch_counts_what_its_handles_count<W: Scalar>(
    pool: PoolView<W>,
    handles: Seq<u32>,
    max_width: W,
    line_height: W,
    counts: Seq<u32>,
    total: u32,
)
    requires
        handles.len() == counts.len(),
        forall|i: int|
            0 <= i < handles.len() ==> handle_layout_outcome(
                pool,
                #[trigger] handles[i],
                max_width,
                line_height,
                Ok(counts[i]),
            ),
        batch_layout_outcome(pool, handles, max_width, line_height, Ok(total)),
    ensures
        total == sum_of_counts(counts),
{
    lemma_batch_lines_add_up(
        pool,
        handles,
        max_width,
        line_height,
        counts,
        handles.len() as int,
    );
    assert(counts.take(handles.len() as int) =~= counts);
}

} // verus!
