//! Canvas measurement: what surrounds the browser's `measureText`.
//!
//! The browser is the font oracle. Here stand the bounded cache of its answers,
//! which texts it is asked about, and what is made of the answers.
use super::{validate_metric, validated, FontSpec, SegmentMetrics};
use crate::backend::fixed::{cjk_clusters, emoji_clusters, lemma_cjk_clusters_push};
use crate::error::Error;
use crate::format::{quote, quoted};
use crate::memory::{can_hold, capacity_of, capped, saturating_product};
use crate::prepare::byte_count;
use crate::scalar::Scalar;
use crate::segmentation::{grapheme_clusters, graphemes};
use crate::text::{chars_of, spells, views};
use crate::unicode::{is_cjk, is_emoji};
use vstd::layout::size_of;
use vstd::prelude::*;
use vstd::string::*;

verus! {

/// Default maximum number of distinct `(font, text)` measurements retained.
pub const DEFAULT_CACHE_CAPACITY: usize = 1_024;

/// Default maximum estimated bytes retained by cached keys and measurements.
pub const DEFAULT_CACHE_BYTE_CAPACITY: usize = 4_194_304;

// ---- Cache ------------------------------------------------------------------------------

/// One retained measurement.
struct CacheEntry<W> {
    font: String,
    text: String,
    metrics: SegmentMetrics<W>,
    retained_bytes: usize,
}

/// Bounded insertion-order cache. Repeated hits do not allocate or extend its
/// lifetime indefinitely; the oldest distinct entry is evicted at capacity.
pub struct MeasurementCache<W> {
    entries: Vec<CacheEntry<W>>,
    entry_capacity: usize,
    byte_capacity: usize,
    retained_bytes: usize,
}

/// A retained measurement as a value.
pub struct Cached<W> {
    pub font: Seq<char>,
    pub text: Seq<char>,
    pub metrics: SegmentMetrics<W>,
    pub bytes: usize,
}

/// A cache as a value: its entries, oldest first, and its limits.
pub struct CacheView<W> {
    pub entries: Seq<Cached<W>>,
    pub entry_capacity: usize,
    pub byte_capacity: usize,
}

impl<W> View for CacheEntry<W> {
    type V = Cached<W>;

    closed spec fn view(&self) -> Cached<W> {
        Cached {
            font: self.font@,
            text: self.text@,
            metrics: self.metrics,
            bytes: self.retained_bytes,
        }
    }
}

impl<W> View for MeasurementCache<W> {
    type V = CacheView<W>;

    closed spec fn view(&self) -> CacheView<W> {
        CacheView {
            entries: self.entries@.map_values(|entry: CacheEntry<W>| entry@),
            entry_capacity: self.entry_capacity,
            byte_capacity: self.byte_capacity,
        }
    }
}

/// The bytes that entries retain.
pub open spec fn bytes_of<W>(entries: Seq<Cached<W>>) -> int
    decreases entries.len(),
{
    if entries.len() == 0 {
        0
    } else {
        entries.first().bytes + bytes_of(entries.drop_first())
    }
}

/// Whether an entry is the one for a key.
pub open spec fn is_for<W>(entry: Cached<W>, font: Seq<char>, text: Seq<char>) -> bool {
    entry.font == font && entry.text == text
}

/// The position of the entry for a key from `from` on, or the number of
/// entries.
pub open spec fn position_of<W>(
    entries: Seq<Cached<W>>,
    font: Seq<char>,
    text: Seq<char>,
    from: int,
) -> int
    decreases entries.len() - from,
{
    if from < 0 || from >= entries.len() {
        entries.len() as int
    } else if is_for(entries[from], font, text) {
        from
    } else {
        position_of(entries, font, text, from + 1)
    }
}

/// The entries that stay when the oldest are evicted until there is room for
/// one more of so many bytes.
pub open spec fn with_room<W>(
    entries: Seq<Cached<W>>,
    entry_capacity: usize,
    byte_capacity: usize,
    bytes: usize,
) -> Seq<Cached<W>>
    decreases entries.len(),
{
    if entries.len() > 0 && (entries.len() >= entry_capacity || bytes_of(entries) + bytes
        > byte_capacity) {
        with_room(entries.drop_first(), entry_capacity, byte_capacity, bytes)
    } else {
        entries
    }
}

/// The entries after a measurement of so many bytes is offered.
///
/// A key that is known keeps its place and gets the new value where it still
/// fits; a new one goes last, after the oldest made room for it.
pub open spec fn entries_after<W>(cache: CacheView<W>, offered: Cached<W>) -> Seq<Cached<W>> {
    let entries = cache.entries;
    let known = position_of(entries, offered.font, offered.text, 0);
    if cache.entry_capacity == 0 || cache.byte_capacity == 0 || offered.bytes
        > cache.byte_capacity {
        entries
    } else if known < entries.len() {
        if bytes_of(entries) - entries[known].bytes + offered.bytes <= cache.byte_capacity {
            entries.update(
                known,
                Cached { metrics: offered.metrics, bytes: offered.bytes, ..entries[known] },
            )
        } else {
            entries
        }
    } else {
        with_room(
            entries,
            cache.entry_capacity,
            cache.byte_capacity,
            offered.bytes,
        ).push(offered)
    }
}

impl<W> CacheView<W> {
    /// Whether a cache is within its limits and holds no key twice.
    pub open spec fn bounded(self) -> bool {
        &&& self.entries.len() <= self.entry_capacity
        &&& bytes_of(self.entries) <= self.byte_capacity
        &&& forall|i: int, k: int|
            #![trigger self.entries[i], self.entries[k]]
            0 <= i < k < self.entries.len() ==> !(self.entries[i].font == self.entries[k].font
                && self.entries[i].text == self.entries[k].text)
    }
}

proof fn lemma_bytes_push<W>(entries: Seq<Cached<W>>, entry: Cached<W>)
    ensures
        bytes_of(entries.push(entry)) == bytes_of(entries) + entry.bytes,
    decreases entries.len(),
{
    if entries.len() == 0 {
        assert(entries.push(entry).drop_first() =~= Seq::empty());
        assert(bytes_of(entries.push(entry).drop_first()) == 0);
    } else {
        assert(entries.push(entry).drop_first() =~= entries.drop_first().push(entry));
        lemma_bytes_push(entries.drop_first(), entry);
    }
}

proof fn lemma_bytes_update<W>(entries: Seq<Cached<W>>, index: int, entry: Cached<W>)
    requires
        0 <= index < entries.len(),
    ensures
        bytes_of(entries.update(index, entry)) == bytes_of(entries) - entries[index].bytes
            + entry.bytes,
        bytes_of(entries) >= entries[index].bytes,
    decreases entries.len(),
{
    lemma_bytes_nonnegative(entries.drop_first());
    if index == 0 {
        assert(entries.update(0, entry).drop_first() =~= entries.drop_first());
    } else {
        assert(entries.update(index, entry).drop_first() =~= entries.drop_first().update(
            index - 1,
            entry,
        ));
        lemma_bytes_update(entries.drop_first(), index - 1, entry);
    }
}

proof fn lemma_bytes_nonnegative<W>(entries: Seq<Cached<W>>)
    ensures
        0 <= bytes_of(entries),
    decreases entries.len(),
{
    if entries.len() > 0 {
        lemma_bytes_nonnegative(entries.drop_first());
    }
}

proof fn lemma_position<W>(entries: Seq<Cached<W>>, font: Seq<char>, text: Seq<char>, from: int)
    requires
        0 <= from <= entries.len(),
    ensures
        from <= position_of(entries, font, text, from) <= entries.len(),
        position_of(entries, font, text, from) < entries.len() ==> is_for(
            entries[position_of(entries, font, text, from)],
            font,
            text,
        ),
        forall|k: int|
            from <= k < position_of(entries, font, text, from) ==> !is_for(
                #[trigger] entries[k],
                font,
                text,
            ),
    decreases entries.len() - from,
{
    if from < entries.len() && !is_for(entries[from], font, text) {
        lemma_position(entries, font, text, from + 1);
    }
}

proof fn lemma_with_room<W>(
    entries: Seq<Cached<W>>,
    entry_capacity: usize,
    byte_capacity: usize,
    bytes: usize,
)
    requires
        entry_capacity > 0,
        bytes <= byte_capacity,
    ensures
        ({
            let kept = with_room(entries, entry_capacity, byte_capacity, bytes);
            &&& kept.len() < entry_capacity
            &&& bytes_of(kept) + bytes <= byte_capacity
            &&& kept.len() <= entries.len()
            &&& kept == entries.skip(entries.len() - kept.len())
        }),
    decreases entries.len(),
{
    if entries.len() > 0 && (entries.len() >= entry_capacity || bytes_of(entries) + bytes
        > byte_capacity) {
        lemma_with_room(entries.drop_first(), entry_capacity, byte_capacity, bytes);
        let kept = with_room(entries, entry_capacity, byte_capacity, bytes);
        assert(entries.drop_first().skip(entries.len() - 1 - kept.len()) =~= entries.skip(
            entries.len() - kept.len(),
        ));
    } else {
        assert(entries.skip(0) =~= entries);
    }
}

/// A cache that is within its limits stays within them, and never holds a key
/// twice.
pub proof fn caching_stays_bounded<W>(cache: CacheView<W>, offered: Cached<W>)
    requires
        cache.bounded(),
    ensures
        (CacheView { entries: entries_after(cache, offered), ..cache }).bounded(),
{
    let entries = cache.entries;
    lemma_position(entries, offered.font, offered.text, 0);
    let known = position_of(entries, offered.font, offered.text, 0);
    if cache.entry_capacity == 0 || cache.byte_capacity == 0 || offered.bytes
        > cache.byte_capacity {
    } else if known < entries.len() {
        let updated = Cached {
            metrics: offered.metrics,
            bytes: offered.bytes,
            ..entries[known]
        };
        lemma_bytes_update(entries, known, updated);
        let after = entries_after(cache, offered);
        assert forall|i: int, k: int|
            #![trigger after[i], after[k]]
            0 <= i < k < after.len() implies !(after[i].font == after[k].font && after[i].text
            == after[k].text) by {
            assert(entries[i].font == after[i].font && entries[i].text == after[i].text);
            assert(entries[k].font == after[k].font && entries[k].text == after[k].text);
        }
    } else {
        lemma_with_room(entries, cache.entry_capacity, cache.byte_capacity, offered.bytes);
        let kept = with_room(
            entries,
            cache.entry_capacity,
            cache.byte_capacity,
            offered.bytes,
        );
        lemma_bytes_push(kept, offered);
        let after = kept.push(offered);
        let gone = entries.len() - kept.len();
        assert forall|i: int, k: int|
            #![trigger after[i], after[k]]
            0 <= i < k < after.len() implies !(after[i].font == after[k].font && after[i].text
            == after[k].text) by {
            assert(after[i] == entries[i + gone]);
            if k < kept.len() {
                assert(after[k] == entries[k + gone]);
            } else {
                assert(!is_for(entries[i + gone], offered.font, offered.text));
            }
        }
    }
}

proof fn lemma_no_more_than_needed<W>(
    entries: Seq<Cached<W>>,
    entry_capacity: usize,
    byte_capacity: usize,
    bytes: usize,
)
    ensures
        ({
            let kept = with_room(entries, entry_capacity, byte_capacity, bytes);
            let gone = entries.len() - kept.len();
            gone > 0 ==> {
                let one_more = entries.skip(gone - 1);
                one_more.len() >= entry_capacity || bytes_of(one_more) + bytes > byte_capacity
            }
        }),
        with_room(entries, entry_capacity, byte_capacity, bytes).len() <= entries.len(),
    decreases entries.len(),
{
    if entries.len() > 0 && (entries.len() >= entry_capacity || bytes_of(entries) + bytes
        > byte_capacity) {
        let rest = entries.drop_first();
        lemma_no_more_than_needed(rest, entry_capacity, byte_capacity, bytes);
        let kept = with_room(entries, entry_capacity, byte_capacity, bytes);
        let gone = entries.len() - kept.len();
        if kept.len() == rest.len() {
            assert(entries.skip(gone - 1) =~= entries);
        } else {
            assert(entries.skip(gone - 1) =~= rest.skip(gone - 2));
        }
    }
}

/// A new measurement goes last and pushes out the oldest ones, and no more of
/// them than it must: what stays is the newest, in order, and with one more of
/// the old ones a limit would be passed.
pub proof fn caching_evicts_the_oldest_and_no_more_than_it_must<W>(
    cache: CacheView<W>,
    offered: Cached<W>,
)
    requires
        cache.entry_capacity > 0,
        cache.byte_capacity > 0,
        offered.bytes <= cache.byte_capacity,
        forall|i: int|
            0 <= i < cache.entries.len() ==> !((#[trigger] cache.entries[i]).font == offered.font
                && cache.entries[i].text == offered.text),
    ensures
        ({
            let after = entries_after(cache, offered);
            let gone = cache.entries.len() + 1 - after.len();
            &&& after.len() > 0 && after.last() == offered
            &&& 0 <= gone <= cache.entries.len()
            &&& after.drop_last() == cache.entries.skip(gone)
            &&& gone > 0 ==> {
                let one_more = cache.entries.skip(gone - 1);
                one_more.len() + 1 > cache.entry_capacity || bytes_of(one_more) + offered.bytes
                    > cache.byte_capacity
            }
        }),
{
    let entries = cache.entries;
    lemma_position(entries, offered.font, offered.text, 0);
    lemma_with_room(entries, cache.entry_capacity, cache.byte_capacity, offered.bytes);
    lemma_no_more_than_needed(entries, cache.entry_capacity, cache.byte_capacity, offered.bytes);
    let kept = with_room(entries, cache.entry_capacity, cache.byte_capacity, offered.bytes);
    let after = entries_after(cache, offered);
    assert(after == kept.push(offered));
    assert(after.drop_last() =~= kept);
}

/// A measurement of a key that is known takes the place of the one before, where
/// it fits, and nothing else changes.
pub proof fn caching_again_replaces_in_place<W>(cache: CacheView<W>, offered: Cached<W>, index: int)
    requires
        cache.bounded(),
        cache.entry_capacity > 0,
        cache.byte_capacity > 0,
        0 <= index < cache.entries.len(),
        cache.entries[index].font == offered.font && cache.entries[index].text == offered.text,
        bytes_of(cache.entries) - cache.entries[index].bytes + offered.bytes
            <= cache.byte_capacity,
    ensures
        entries_after(cache, offered) == cache.entries.update(index, offered),
{
    let entries = cache.entries;
    lemma_position(entries, offered.font, offered.text, 0);
    let known = position_of(entries, offered.font, offered.text, 0);
    assert(is_for(entries[index], offered.font, offered.text));
    if known != index {
        assert(entries[known].font == entries[index].font);
    }
    lemma_bytes_update(entries, index, offered);
    assert(entries_after(cache, offered) =~= entries.update(index, offered));
}

/// A limit of zero disables caching.
pub proof fn zero_limits_disable_caching<W>(cache: CacheView<W>, offered: Cached<W>)
    requires
        cache.bounded(),
        cache.entry_capacity == 0 || cache.byte_capacity == 0,
    ensures
        entries_after(cache, offered) == cache.entries,
        cache.entry_capacity == 0 ==> cache.entries.len() == 0,
{
}

/// What was just cached is found: a measurement that is accepted is the one
/// that its key gives back.
pub proof fn cached_values_are_found<W>(cache: CacheView<W>, offered: Cached<W>)
    requires
        cache.bounded(),
        cache.entry_capacity > 0,
        offered.bytes <= cache.byte_capacity,
        cache.byte_capacity > 0,
        position_of(cache.entries, offered.font, offered.text, 0) == cache.entries.len(),
    ensures
        ({
            let after = entries_after(cache, offered);
            let found = position_of(after, offered.font, offered.text, 0);
            found == after.len() - 1 && after[found] == offered
        }),
{
    caching_stays_bounded(cache, offered);
    let after = entries_after(cache, offered);
    let bounded = CacheView { entries: after, ..cache };
    assert(bounded.bounded());
    lemma_position(after, offered.font, offered.text, 0);
    let found = position_of(after, offered.font, offered.text, 0);
    assert(after[after.len() - 1] == offered);
    if found < after.len() - 1 {
        assert(bounded.entries[found].font == bounded.entries[after.len() - 1].font);
    }
}

/// What a measurement retains: its key twice, once for the map and once for the
/// insertion order, and its widths.
pub open spec fn retained<W>(font: Seq<char>, text: Seq<char>, width_capacity: usize) -> usize {
    capped(
        2 * size_of::<(String, String)>() + 2 * byte_count(font) + 2 * byte_count(text) + size_of::<
            SegmentMetrics<W>,
        >() + width_capacity * size_of::<W>(),
    )
}

/// The bytes that a measurement retains, given the room that its grapheme
/// widths have. A number that cannot be represented is `usize::MAX`.
#[must_use]
pub fn retained_bytes_with<W>(font: &str, text: &str, width_capacity: usize) -> (r: usize)
    ensures
        r == retained::<W>(font@, text@, width_capacity),
{
    let key_storage: usize = saturating_product(
        core::mem::size_of::<(String, String)>(),
        2,
    ).saturating_add(saturating_product(font.len(), 2)).saturating_add(
        saturating_product(text.len(), 2),
    );
    let width_storage: usize = saturating_product(width_capacity, core::mem::size_of::<W>());
    proof {
        vstd::arithmetic::mul::lemma_mul_nonnegative(width_capacity as int, size_of::<W>() as int);
    }
    key_storage.saturating_add(
        core::mem::size_of::<SegmentMetrics<W>>().saturating_add(width_storage),
    )
}

/// Whether a number of bytes is an estimate for a measurement: what it retains
/// when its grapheme widths have a room that they can have.
pub open spec fn covers<W>(
    font: Seq<char>,
    text: Seq<char>,
    metrics: SegmentMetrics<W>,
    bytes: usize,
) -> bool {
    match metrics.widths() {
        Some(widths) => exists|capacity: usize|
            can_hold::<W>(capacity, widths.len()) && bytes == #[trigger] retained::<W>(
                font,
                text,
                capacity,
            ),
        None => bytes == retained::<W>(font, text, 0),
    }
}

/// Estimate the bytes that a measurement retains.
///
/// Fixed-size overhead is counted so many tiny entries cannot bypass the byte
/// limit. An estimate that cannot be represented is `usize::MAX`.
#[must_use]
pub fn estimated_retained_bytes<W>(font: &str, text: &str, metrics: &SegmentMetrics<W>) -> (r:
    usize)
    ensures
        covers(font@, text@, *metrics, r),
{
    let width_capacity: usize = match &metrics.grapheme_widths {
        Some(widths) => capacity_of(widths),
        None => 0,
    };
    retained_bytes_with::<W>(font, text, width_capacity)
}

/// Entries as values.
spec fn cached_of<W>(entries: Seq<CacheEntry<W>>) -> Seq<Cached<W>> {
    entries.map_values(|entry: CacheEntry<W>| entry@)
}

impl<W: Scalar> MeasurementCache<W> {
    /// What every operation keeps: the accounted bytes are those of the
    /// entries.
    pub closed spec fn well_formed(&self) -> bool {
        self.retained_bytes == bytes_of(self@.entries)
    }

    /// A cache with these limits. Either limit being zero disables caching.
    #[must_use]
    pub fn new(entry_capacity: usize, byte_capacity: usize) -> (r: Self)
        ensures
            r.well_formed(),
            r@ == (CacheView::<W> { entries: Seq::empty(), entry_capacity, byte_capacity }),
            r@.bounded(),
    {
        let entries: Vec<CacheEntry<W>> = Vec::new();
        proof {
            assert(cached_of(entries@) =~= Seq::empty());
        }
        MeasurementCache { entries, entry_capacity, byte_capacity, retained_bytes: 0 }
    }

    /// The bytes that the entries retain.
    #[must_use]
    pub fn retained_bytes(&self) -> (r: usize)
        requires
            self.well_formed(),
        ensures
            r == bytes_of(self@.entries),
    {
        self.retained_bytes
    }

    /// The limit on the bytes that the entries retain.
    #[must_use]
    pub fn byte_capacity(&self) -> (r: usize)
        ensures
            r == self@.byte_capacity,
    {
        self.byte_capacity
    }

    fn find(&self, font: &str, text: &str) -> (r: usize)
        ensures
            r == position_of(self@.entries, font@, text@, 0),
            r <= self.entries@.len(),
    {
        let font_chars = chars_of(font);
        let text_chars = chars_of(text);
        let ghost all = self@.entries;
        let mut index: usize = 0;
        while index < self.entries.len()
            invariant
                index <= self.entries@.len(),
                all == self@.entries,
                all.len() == self.entries@.len(),
                font_chars@ == font@,
                text_chars@ == text@,
                position_of(all, font@, text@, 0) == position_of(
                    all,
                    font@,
                    text@,
                    index as int,
                ),
            decreases self.entries@.len() - index,
        {
            proof {
                assert(all[index as int] == self.entries@[index as int]@);
            }
            if spells(&font_chars, self.entries[index].font.as_str()) && spells(
                &text_chars,
                self.entries[index].text.as_str(),
            ) {
                return index;
            }
            index += 1;
        }
        index
    }

    /// The retained measurement for a key.
    #[must_use]
    pub fn get(&self, font: &str, text: &str) -> (r: Option<&SegmentMetrics<W>>)
        ensures
            ({
                let found = position_of(self@.entries, font@, text@, 0);
                if found < self@.entries.len() {
                    r matches Some(metrics) && *metrics == self@.entries[found].metrics
                } else {
                    r is None
                }
            }),
    {
        let index = self.find(font, text);
        if index < self.entries.len() {
            proof {
                assert(self@.entries[index as int] == self.entries@[index as int]@);
            }
            Some(&self.entries[index].metrics)
        } else {
            None
        }
    }

    /// Evict the oldest entries until there is room for so many bytes.
    fn make_room(&mut self, entry_bytes: usize)
        requires
            old(self).well_formed(),
            old(self)@.entry_capacity > 0,
            entry_bytes <= old(self)@.byte_capacity,
        ensures
            final(self).well_formed(),
            final(self)@ == (CacheView {
                entries: with_room(
                    old(self)@.entries,
                    old(self)@.entry_capacity,
                    old(self)@.byte_capacity,
                    entry_bytes,
                ),
                ..old(self)@
            }),
    {
        let ghost before = self@;
        while self.entries.len() >= self.entry_capacity || self.retained_bytes > self.byte_capacity
            - entry_bytes
            invariant
                self.well_formed(),
                self@.entry_capacity == before.entry_capacity,
                self@.byte_capacity == before.byte_capacity,
                before.entry_capacity > 0,
                entry_bytes <= before.byte_capacity,
                with_room(
                    before.entries,
                    before.entry_capacity,
                    before.byte_capacity,
                    entry_bytes,
                ) == with_room(
                    self@.entries,
                    before.entry_capacity,
                    before.byte_capacity,
                    entry_bytes,
                ),
            decreases self.entries@.len(),
        {
            let ghost held = self@.entries;
            proof {
                if self.entries@.len() == 0 {
                    assert(held =~= Seq::empty());
                }
            }
            let oldest = self.entries.remove(0);
            proof {
                assert(held.first() == oldest@);
                assert(self@.entries =~= held.drop_first());
                lemma_bytes_nonnegative(held.drop_first());
            }
            self.retained_bytes = self.retained_bytes - oldest.retained_bytes;
        }
        proof {
            if self.entries@.len() == 0 {
                assert(self@.entries =~= Seq::empty());
            }
        }
    }

    /// Offer a measurement that retains so many bytes.
    pub fn insert_sized(
        &mut self,
        font: String,
        text: String,
        metrics: SegmentMetrics<W>,
        entry_bytes: usize,
    )
        requires
            old(self).well_formed(),
        ensures
            final(self).well_formed(),
            final(self)@ == (CacheView {
                entries: entries_after(
                    old(self)@,
                    Cached { font: font@, text: text@, metrics, bytes: entry_bytes },
                ),
                ..old(self)@
            }),
    {
        let ghost before = self@;
        let ghost offered = Cached { font: font@, text: text@, metrics, bytes: entry_bytes };
        if self.entry_capacity == 0 || self.byte_capacity == 0 || entry_bytes > self.byte_capacity {
            return;
        }
        let known = self.find(font.as_str(), text.as_str());
        if known < self.entries.len() {
            let ghost updated = Cached {
                metrics: offered.metrics,
                bytes: offered.bytes,
                ..before.entries[known as int]
            };
            proof {
                assert(before.entries[known as int] == self.entries@[known as int]@);
                lemma_bytes_update(before.entries, known as int, updated);
            }
            let others: usize = self.retained_bytes - self.entries[known].retained_bytes;
            if others > self.byte_capacity - entry_bytes {
                return;
            }
            let mut entry = self.entries.remove(known);
            entry.metrics = metrics;
            entry.retained_bytes = entry_bytes;
            self.entries.insert(known, entry);
            self.retained_bytes = others + entry_bytes;
            proof {
                assert(self@.entries =~= before.entries.update(known as int, updated));
            }
            return;
        }
        self.make_room(entry_bytes);
        let ghost room = self@.entries;
        proof {
            lemma_with_room(
                before.entries,
                before.entry_capacity,
                before.byte_capacity,
                entry_bytes,
            );
            lemma_bytes_push(room, offered);
        }
        self.entries.push(CacheEntry { font, text, metrics, retained_bytes: entry_bytes });
        self.retained_bytes = self.retained_bytes + entry_bytes;
        proof {
            assert(self@.entries =~= room.push(offered));
        }
    }

    /// Offer a measurement.
    ///
    /// Entries are evicted in insertion order until both limits are met. A
    /// measurement larger than the complete byte budget is not retained.
    pub fn insert(&mut self, font: String, text: String, metrics: SegmentMetrics<W>)
        requires
            old(self).well_formed(),
        ensures
            final(self).well_formed(),
            exists|bytes: usize| #[trigger]
                covers(font@, text@, metrics, bytes) && final(self)@ == (CacheView {
                    entries: entries_after(
                        old(self)@,
                        Cached { font: font@, text: text@, metrics, bytes },
                    ),
                    ..old(self)@
                }),
    {
        let entry_bytes = estimated_retained_bytes(font.as_str(), text.as_str(), &metrics);
        proof {
            assert(covers(font@, text@, metrics, entry_bytes));
        }
        self.insert_sized(font, text, metrics, entry_bytes);
    }

    /// Drop all retained measurements.
    pub fn clear(&mut self)
        requires
            old(self).well_formed(),
        ensures
            final(self).well_formed(),
            final(self)@ == (CacheView { entries: Seq::empty(), ..old(self)@ }),
    {
        self.entries.clear();
        self.retained_bytes = 0;
        proof {
            assert(self@.entries =~= Seq::empty());
        }
    }
}

// ---- Asking the browser --------------------------------------------------------------------

/// The error for a font without an explicit generic family.
pub open spec fn lacks_generic_family(error: Error, css: Seq<char>) -> bool {
    error matches Error::InvalidFontSpec { spec, reason } && spec@ == css && reason@
        == "canvas measurement requires an explicit CSS generic family fallback"@
}

/// Accept a font that the browser can be asked about.
///
/// # Errors
///
/// Returns [`Error::InvalidFontSpec`] for a font without an explicit generic
/// family: the browser would fall back silently where a face is missing.
pub fn require_generic_family<W: Scalar>(font: &FontSpec<W>) -> (r: Result<(), Error>)
    ensures
        r is Ok <==> font@.has_generic_family,
        r matches Err(error) ==> lacks_generic_family(error, font@.css),
{
    if font.has_generic_family() {
        Ok(())
    } else {
        Err(
            Error::InvalidFontSpec {
                spec: font.as_css_str().to_string(),
                reason: "canvas measurement requires an explicit CSS generic family fallback".to_string(),
            },
        )
    }
}

/// The widths that a segment is made of, as far as they were measured.
pub struct CanvasWidths<W> {
    /// The width of the whole segment, with its kerning and shaping.
    pub whole: W,
    /// The width of each grapheme on its own.
    pub graphemes: Vec<W>,
}

/// Put the metrics of a segment together, given its grapheme clusters and the
/// measured widths. A single grapheme needs no width of its own.
#[must_use]
pub fn canvas_metrics<W: Scalar>(clusters: &Vec<String>, widths: CanvasWidths<W>) -> (r:
    SegmentMetrics<W>)
    requires
        forall|i: int| 0 <= i < clusters@.len() ==> (#[trigger] clusters@[i])@.len() > 0,
    ensures
        r.width == widths.whole,
        r.contains_cjk == cjk_clusters(views(clusters@)),
        r.emoji_count == emoji_clusters(views(clusters@)),
        r.widths() == if clusters@.len() > 1 {
            Some(widths.graphemes@)
        } else {
            None
        },
{
    let ghost texts = views(clusters@);
    let mut contains_cjk = false;
    let mut emoji_count: usize = 0;
    let mut index: usize = 0;
    proof {
        assert(texts.take(0) =~= Seq::empty());
    }
    while index < clusters.len()
        invariant
            index <= clusters@.len(),
            texts == views(clusters@),
            forall|i: int| 0 <= i < clusters@.len() ==> (#[trigger] clusters@[i])@.len() > 0,
            contains_cjk == cjk_clusters(texts.take(index as int)),
            emoji_count == emoji_clusters(texts.take(index as int)),
            emoji_count <= index,
        decreases clusters@.len() - index,
    {
        let cluster = chars_of(clusters[index].as_str());
        proof {
            assert(cluster@.len() > 0);
            assert(texts[index as int] == cluster@);
            assert(texts.take(index + 1).drop_last() =~= texts.take(index as int));
            lemma_cjk_clusters_push(texts, index as int);
        }
        contains_cjk = contains_cjk || is_cjk(cluster[0]);
        if is_emoji(cluster[0]) {
            emoji_count += 1;
        }
        index += 1;
    }
    proof {
        assert(texts.take(index as int) =~= texts);
    }
    SegmentMetrics {
        width: widths.whole,
        contains_cjk,
        emoji_count,
        grapheme_widths: if clusters.len() > 1 {
            Some(widths.graphemes)
        } else {
            None
        },
    }
}

/// Accept a width that the browser measured.
///
/// # Errors
///
/// Returns [`Error::InvalidMetric`] for a width that is no measurement.
pub fn accept_canvas_width<W: Scalar>(width: W) -> (r: Result<W, Error>)
    ensures
        validated("canvas text width"@, width, r),
{
    validate_metric("canvas text width", width)
}

/// The texts that the browser is asked about for a segment: the whole segment,
/// which keeps kerning and shaping, and each grapheme where there are several.
pub open spec fn asked_texts(text: Seq<char>) -> Seq<Seq<char>> {
    let clusters = grapheme_clusters(text);
    if clusters.len() > 1 {
        seq![text] + clusters
    } else {
        seq![text]
    }
}

/// Whether a segment's metrics are the ones that the browser's answers make up.
pub open spec fn answers_make<W: Scalar>(
    text: Seq<char>,
    widths: Seq<W>,
    metrics: SegmentMetrics<W>,
) -> bool {
    let clusters = grapheme_clusters(text);
    &&& metrics.width == widths[0]
    &&& metrics.contains_cjk == cjk_clusters(clusters)
    &&& metrics.emoji_count == emoji_clusters(clusters)
    &&& metrics.widths() == if clusters.len() > 1 {
        Some(widths.subrange(1, widths.len() as int))
    } else {
        None
    }
}

/// Whether two metrics say the same.
pub open spec fn same_metrics<W>(a: SegmentMetrics<W>, b: SegmentMetrics<W>) -> bool {
    &&& a.width == b.width
    &&& a.contains_cjk == b.contains_cjk
    &&& a.emoji_count == b.emoji_count
    &&& a.widths() == b.widths()
}

/// A copy of a segment's metrics.
fn copy_metrics<W: Scalar>(metrics: &SegmentMetrics<W>) -> (r: SegmentMetrics<W>)
    ensures
        same_metrics(r, *metrics),
{
    let grapheme_widths = match &metrics.grapheme_widths {
        Some(widths) => Some(copy_widths(widths, 0)),
        None => None,
    };
    proof {
        if let Some(widths) = &metrics.grapheme_widths {
            assert(widths@.subrange(0, widths@.len() as int) =~= widths@);
        }
    }
    SegmentMetrics {
        width: metrics.width,
        contains_cjk: metrics.contains_cjk,
        emoji_count: metrics.emoji_count,
        grapheme_widths,
    }
}

/// A copy of the widths from `from` on.
fn copy_widths<W: Scalar>(widths: &Vec<W>, from: usize) -> (r: Vec<W>)
    requires
        from <= widths@.len(),
    ensures
        r@ == widths@.subrange(from as int, widths@.len() as int),
{
    let mut copy: Vec<W> = Vec::new();
    let mut index: usize = from;
    while index < widths.len()
        invariant
            from <= index <= widths@.len(),
            copy@ == widths@.subrange(from as int, index as int),
        decreases widths@.len() - index,
    {
        copy.push(widths[index]);
        index += 1;
        proof {
            assert(copy@ =~= widths@.subrange(from as int, index as int));
        }
    }
    copy
}

/// The state around a browser's measurement context: what it was asked, and the
/// font that it was last given.
pub struct CanvasState<W> {
    cache: MeasurementCache<W>,
    current_font: String,
}

/// The state as a value.
pub struct CanvasView<W> {
    pub cache: CacheView<W>,
    pub current_font: Seq<char>,
}

impl<W> View for CanvasState<W> {
    type V = CanvasView<W>;

    closed spec fn view(&self) -> CanvasView<W> {
        CanvasView { cache: self.cache@, current_font: self.current_font@ }
    }
}

/// What has to be done before the browser can be asked about a font.
#[derive(Debug, Clone, Copy, PartialEq, Eq, Structural)]
pub enum FontStep {
    /// The context has the font already.
    Ready,
    /// Assign `1px serif`, read the context's font, assign the font, and read
    /// it again.
    AssignAfterOnePixel,
    /// The same with `2px serif`, because the font itself is one pixel large.
    AssignAfterTwoPixels,
}

impl FontStep {
    /// The font to assign first. The browser silently ignores an invalid
    /// assignment; a valid font that differs from the wanted one makes it
    /// visible.
    #[must_use]
    pub fn sentinel(self) -> (r: Option<&'static str>)
        ensures
            match self {
                FontStep::Ready => r is None,
                FontStep::AssignAfterOnePixel => r matches Some(font) && font@ == "1px serif"@,
                FontStep::AssignAfterTwoPixels => r matches Some(font) && font@ == "2px serif"@,
            },
    {
        match self {
            FontStep::Ready => None,
            FontStep::AssignAfterOnePixel => Some("1px serif"),
            FontStep::AssignAfterTwoPixels => Some("2px serif"),
        }
    }
}

/// Whether a size is one pixel, or differs from it by less than `2^-52`.
pub open spec fn one_pixel<W: Scalar>(size: W) -> bool {
    let one = W::ratio_value(1, 1);
    let step = W::ratio_value(1, 67_108_864);
    ||| size.at_most(one) && one.at_most(size)
    ||| size.minus(one).larger(one.minus(size)).below(step.times(step))
}

/// The error for a font that the browser did not take.
pub open spec fn font_refused(error: Error, css: Seq<char>) -> bool {
    error.reports_measurement(
        "canvas"@,
        "browser rejected validated font assignment "@ + quoted(css),
    )
}

/// Whether a cache is another one that was offered metrics for a key.
pub open spec fn retained_in<W: Scalar>(
    before: CacheView<W>,
    font: Seq<char>,
    text: Seq<char>,
    metrics: SegmentMetrics<W>,
    after: CacheView<W>,
) -> bool {
    exists|copy: SegmentMetrics<W>, bytes: usize|
        {
            &&& same_metrics(copy, metrics)
            &&& #[trigger] covers(font, text, copy, bytes)
            &&& after == (CacheView {
                entries: entries_after(before, Cached { font, text, metrics: copy, bytes }),
                ..before
            })
        }
}

impl<W: Scalar> CanvasState<W> {
    /// What every operation keeps: the cache accounts for its entries and is
    /// within its limits.
    pub closed spec fn well_formed(&self) -> bool {
        self.cache.well_formed() && self.cache@.bounded()
    }

    /// A state with an empty cache of these limits and no font.
    #[must_use]
    pub fn new(entry_capacity: usize, byte_capacity: usize) -> (r: Self)
        ensures
            r.well_formed(),
            r@.cache == (CacheView::<W> { entries: Seq::empty(), entry_capacity, byte_capacity }),
            r@.current_font == Seq::<char>::empty(),
    {
        let current_font = String::new();
        proof {
            assert(current_font@ =~= Seq::empty());
        }
        CanvasState { cache: MeasurementCache::new(entry_capacity, byte_capacity), current_font }
    }

    /// Drop all retained measurements.
    pub fn clear_cache(&mut self)
        requires
            old(self).well_formed(),
        ensures
            final(self).well_formed(),
            final(self)@ == (CanvasView {
                cache: CacheView { entries: Seq::empty(), ..old(self)@.cache },
                ..old(self)@
            }),
    {
        self.cache.clear();
        proof {
            lemma_bytes_nonnegative(self.cache@.entries);
        }
    }

    /// The retained metrics of a segment.
    #[must_use]
    pub fn cached(&self, text: &str, font: &FontSpec<W>) -> (r: Option<SegmentMetrics<W>>)
        ensures
            ({
                let entries = self@.cache.entries;
                let found = position_of(entries, font@.css, text@, 0);
                if found < entries.len() {
                    r matches Some(metrics) && same_metrics(metrics, entries[found].metrics)
                } else {
                    r is None
                }
            }),
    {
        match self.cache.get(font.as_css_str(), text) {
            Some(metrics) => Some(copy_metrics(metrics)),
            None => None,
        }
    }

    /// What has to be done before the browser can be asked about a font.
    ///
    /// # Errors
    ///
    /// Returns [`Error::InvalidFontSpec`] for a font without an explicit generic
    /// family.
    pub fn font_step(&self, font: &FontSpec<W>) -> (r: Result<FontStep, Error>)
        ensures
            if !font@.has_generic_family {
                r matches Err(error) && lacks_generic_family(error, font@.css)
            } else if self@.current_font == font@.css {
                r == Ok::<FontStep, Error>(FontStep::Ready)
            } else if one_pixel(font@.size_px) {
                r == Ok::<FontStep, Error>(FontStep::AssignAfterTwoPixels)
            } else {
                r == Ok::<FontStep, Error>(FontStep::AssignAfterOnePixel)
            },
    {
        if let Err(error) = require_generic_family(font) {
            return Err(error);
        }
        if spells(&chars_of(self.current_font.as_str()), font.as_css_str()) {
            return Ok(FontStep::Ready);
        }
        let one = W::ratio(1, 1);
        let step = W::ratio(1, 67_108_864);
        let size = font.size_px();
        if (size.le(one) && one.le(size)) || size.sub(one).max(one.sub(size)).lt(step.mul(step)) {
            Ok(FontStep::AssignAfterTwoPixels)
        } else {
            Ok(FontStep::AssignAfterOnePixel)
        }
    }

    /// Take note of what the context's font was after the first and after the
    /// second assignment.
    ///
    /// # Errors
    ///
    /// Returns [`Error::Measurement`] when the second assignment changed
    /// nothing: the browser refused the font.
    pub fn font_assigned(&mut self, font: &FontSpec<W>, applied_sentinel: &str, applied: &str) -> (r:
        Result<(), Error>)
        requires
            old(self).well_formed(),
        ensures
            final(self).well_formed(),
            final(self)@.cache == old(self)@.cache,
            if applied@ == applied_sentinel@ {
                &&& r matches Err(error) && font_refused(error, font@.css)
                &&& final(self)@.current_font == old(self)@.current_font
            } else {
                &&& r is Ok
                &&& final(self)@.current_font == font@.css
            },
    {
        if spells(&chars_of(applied), applied_sentinel) {
            let mut message = "browser rejected validated font assignment ".to_string();
            message.append(quote(font.as_css_str()).as_str());
            return Err(Error::measurement("canvas", message));
        }
        self.current_font = font.as_css_str().to_string();
        Ok(())
    }

    /// Put the browser's answers together, one for each asked text, and retain
    /// them.
    fn retain(
        &mut self,
        clusters: &Vec<String>,
        text: &str,
        font: &FontSpec<W>,
        widths: &Vec<W>,
    ) -> (r: SegmentMetrics<W>)
        requires
            old(self).well_formed(),
            widths@.len() > 0,
            views(clusters@) == grapheme_clusters(text@),
            forall|i: int| 0 <= i < clusters@.len() ==> (#[trigger] clusters@[i])@.len() > 0,
        ensures
            final(self).well_formed(),
            final(self)@.current_font == old(self)@.current_font,
            answers_make(text@, widths@, r),
            retained_in(old(self)@.cache, font@.css, text@, r, final(self)@.cache),
    {
        let ghost before = self.cache@;
        let metrics = canvas_metrics(
            clusters,
            CanvasWidths { whole: widths[0], graphemes: copy_widths(widths, 1) },
        );
        let copy = copy_metrics(&metrics);
        let bytes = estimated_retained_bytes(font.as_css_str(), text, &copy);
        let ghost offered = Cached { font: font@.css, text: text@, metrics: copy, bytes };
        self.cache.insert_sized(font.as_css_str().to_string(), text.to_string(), copy, bytes);
        proof {
            assert(same_metrics(copy, metrics));
            assert(covers(font@.css, text@, copy, bytes));
            caching_stays_bounded(before, offered);
        }
        metrics
    }

    /// Put the browser's answers together and retain them. There is one answer
    /// for each asked text; with another number of answers nothing is done.
    pub fn measured(&mut self, text: &str, font: &FontSpec<W>, widths: &Vec<W>) -> (r: Option<
        SegmentMetrics<W>,
    >)
        requires
            old(self).well_formed(),
        ensures
            final(self).well_formed(),
            final(self)@.current_font == old(self)@.current_font,
            r is Some <==> widths@.len() == asked_texts(text@).len(),
            match r {
                Some(metrics) => {
                    &&& answers_make(text@, widths@, metrics)
                    &&& retained_in(old(self)@.cache, font@.css, text@, metrics, final(self)@.cache)
                },
                None => final(self)@ == old(self)@,
            },
    {
        let clusters = graphemes(text);
        let asked: usize = if clusters.len() > 1 {
            match clusters.len().checked_add(1) {
                Some(asked) => asked,
                None => {
                    proof {
                        assert(widths.len() <= usize::MAX);
                    }
                    return None;
                },
            }
        } else {
            1
        };
        if widths.len() != asked {
            return None;
        }
        Some(self.retain(&clusters, text, font, widths))
    }
}

/// What is said when no measurement context could be created.
pub open spec fn init_failure(offscreen: Option<Seq<char>>, dom: Seq<char>) -> Seq<char> {
    match offscreen {
        Some(offscreen) => "offscreen context failed ("@ + offscreen
            + "); DOM fallback failed ("@ + dom + ")"@,
        None => "DOM canvas initialization failed ("@ + dom + ")"@,
    }
}

/// Say why no measurement context could be created.
#[must_use]
pub fn format_canvas_init_failure(offscreen: Option<&str>, dom: &str) -> (r: String)
    ensures
        r@ == init_failure(
            match offscreen {
                Some(reason) => Some(reason@),
                None => None,
            },
            dom@,
        ),
{
    let mut message = match offscreen {
        Some(reason) => {
            let mut start = "offscreen context failed (".to_string();
            start.append(reason);
            start.append("); DOM fallback failed (");
            start
        },
        None => "DOM canvas initialization failed (".to_string(),
    };
    message.append(dom);
    message.append(")");
    message
}

/// The texts that the browser is asked about for a segment, in order.
#[must_use]
pub fn texts_to_ask(text: &str) -> (r: Vec<String>)
    ensures
        views(r@) == asked_texts(text@),
{
    let clusters = graphemes(text);
    let mut texts: Vec<String> = Vec::new();
    texts.push(text.to_string());
    if clusters.len() <= 1 {
        proof {
            assert(views(texts@) =~= asked_texts(text@));
        }
        return texts;
    }
    let mut index: usize = 0;
    while index < clusters.len()
        invariant
            index <= clusters@.len(),
            views(texts@) == seq![text@] + views(clusters@).take(index as int),
        decreases clusters@.len() - index,
    {
        let ghost before = views(texts@);
        texts.push(clusters[index].as_str().to_string());
        proof {
            assert(views(texts@) =~= before.push(clusters@[index as int]@));
            assert(views(texts@) =~= seq![text@] + views(clusters@).take(index + 1));
        }
        index += 1;
    }
    proof {
        assert(views(clusters@).take(index as int) =~= views(clusters@));
    }
    texts
}

} // verus!
