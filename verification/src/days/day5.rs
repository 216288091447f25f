//! Ranges of fresh ids: which items are fresh, and the ranges combined so
//! that ranges that meet become one.

use crate::rank::{arrange, descending_rank, lemma_descending_rank, precedes, rank_descending};
use crate::text::{chars_of, parse_pair, split, split_on, written_pair};
use vstd::prelude::*;

verus! {

/// The ids from `start` to `end`, both included.
#[derive(Debug, PartialEq, Eq, Clone, Copy, Structural)]
pub struct Range {
    pub start: u64,
    pub end: u64,
}

/// An item with its id.
#[derive(Debug, PartialEq, Eq, Clone, Copy, Structural)]
pub struct Item {
    pub id: u64,
}

/// Ranges of fresh ids.
#[derive(Debug, PartialEq)]
pub struct Ranges {
    pub ranges: Vec<Range>,
}

impl Item {
    /// The item of this id.
    pub fn new(id: u64) -> (item: Self)
        ensures
            item == (Item { id }),
    {
        Self { id }
    }
}

impl Range {
    /// The id lies in the range.
    pub open spec fn holds(self, id: u64) -> bool {
        self.start <= id <= self.end
    }

    /// The two ranges share an id or one of them begins where the other
    /// ends.
    pub open spec fn meets(self, another: Range) -> bool {
        another.start <= self.end && another.end >= self.start
    }

    /// The range from the smaller start to the larger end.
    pub open spec fn hull(self, another: Range) -> Range {
        Range {
            start: if another.start < self.start {
                another.start
            } else {
                self.start
            },
            end: if another.end > self.end {
                another.end
            } else {
                self.end
            },
        }
    }

    /// Two ranges that meet as one range, two that do not in the order of
    /// their starts, `self` first where the starts are the same.
    pub open spec fn combined(self, another: Range) -> Seq<Range> {
        if self.meets(another) {
            seq![self.hull(another)]
        } else if another.start < self.start {
            seq![another, self]
        } else {
            seq![self, another]
        }
    }

    /// The range from `start` to `end`.
    pub fn new(start: u64, end: u64) -> (range: Self)
        ensures
            range == (Range { start, end }),
    {
        Self { start, end }
    }

    /// What a line of text says: the start and the end as unsigned numbers
    /// of 64 bits with `-` between them.
    pub open spec fn written_in(text: Seq<char>) -> Option<Range> {
        match written_pair(text, '-', u64::MAX) {
            Some(ends) => Some(Range { start: ends.0, end: ends.1 }),
            None => None,
        }
    }

    /// Reads a range from characters of the form `start-end`, if they have
    /// it.
    pub fn read_chars(chars: &Vec<char>) -> (range: Option<Self>)
        ensures
            range == Self::written_in(chars@),
    {
        match parse_pair(chars, '-', 0xffff_ffff_ffff_ffff) {
            Some(ends) => Some(Self { start: ends.0, end: ends.1 }),
            None => None,
        }
    }

    /// Reads a range from text of the form `start-end`, if it has that form.
    pub fn try_read(line: &str) -> (range: Option<Self>)
        ensures
            range == Self::written_in(line@),
    {
        let chars = chars_of(line);
        Self::read_chars(&chars)
    }

    /// How many ids a range with `start <= end` holds.
    pub open spec fn count(self) -> int {
        self.end - self.start + 1
    }

    /// Whether the id of the item lies in the range.
    pub fn is_item_fresh(&self, item: &Item) -> (fresh: bool)
        ensures
            fresh == self.holds(item.id),
    {
        item.id <= self.end && item.id >= self.start
    }

    /// The two ranges as one where they meet, else both in the order of
    /// their starts.
    pub fn combine(&self, another: &Range) -> (both: Vec<Self>)
        ensures
            both@ == self.combined(*another),
    {
        let mut both: Vec<Self> = Vec::new();
        if another.start <= self.end && another.end >= self.start {
            let start = if another.start < self.start {
                another.start
            } else {
                self.start
            };
            let end = if another.end > self.end {
                another.end
            } else {
                self.end
            };
            both.push(Self::new(start, end));
            assert(both@ =~= self.combined(*another));
        } else if another.start < self.start {
            both.push(*another);
            both.push(*self);
            assert(both@ =~= self.combined(*another));
        } else {
            both.push(*self);
            both.push(*another);
            assert(both@ =~= self.combined(*another));
        }
        both
    }
}

/// One of the ranges holds the id.
pub open spec fn covered(ranges: Seq<Range>, id: u64) -> bool {
    exists|k: int| 0 <= k < ranges.len() && (#[trigger] ranges[k]).holds(id)
}

/// How many of the items lie in one of the ranges.
pub open spec fn fresh_count(ranges: Seq<Range>, items: Seq<Item>) -> nat
    decreases items.len(),
{
    if items.len() == 0 {
        0
    } else {
        fresh_count(ranges, items.drop_last()) + if covered(ranges, items.last().id) {
            1nat
        } else {
            0nat
        }
    }
}

/// The range `r` after it has taken in, one after the other, those of the
/// first `k` ranges of `buffer` that it meets.
pub open spec fn grown(buffer: Seq<Range>, r: Range, k: int) -> Range
    decreases k,
{
    if k <= 0 {
        r
    } else {
        let so_far = grown(buffer, r, k - 1);
        if so_far.meets(buffer[k - 1]) {
            so_far.hull(buffer[k - 1])
        } else {
            so_far
        }
    }
}

/// Those of the first `k` ranges of `buffer` that the growing `r` did not
/// meet, in their order.
pub open spec fn kept(buffer: Seq<Range>, r: Range, k: int) -> Seq<Range>
    decreases k,
{
    if k <= 0 {
        Seq::empty()
    } else {
        let before = kept(buffer, r, k - 1);
        if grown(buffer, r, k - 1).meets(buffer[k - 1]) {
            before
        } else {
            before.push(buffer[k - 1])
        }
    }
}

/// The keys by which a descending ranking puts the smallest start first.
pub open spec fn start_keys(ranges: Seq<Range>) -> Seq<u64> {
    Seq::new(ranges.len(), |i: int| (u64::MAX - ranges[i].start) as u64)
}

/// The ranges in the order of their starts; ranges of one start keep their
/// order.
pub open spec fn by_start(ranges: Seq<Range>) -> Seq<Range> {
    arrange(ranges, descending_rank(start_keys(ranges)))
}

/// The buffer after `r` was combined into it.
pub open spec fn taken_in(buffer: Seq<Range>, r: Range) -> Seq<Range> {
    by_start(
        kept(buffer, r, buffer.len() as int).push(grown(buffer, r, buffer.len() as int)),
    )
}

/// The first `k` ranges combined, one after the other.
pub open spec fn combined_first(ranges: Seq<Range>, k: int) -> Seq<Range>
    decreases k,
{
    if k <= 1 {
        seq![ranges[0]]
    } else {
        taken_in(combined_first(ranges, k - 1), ranges[k - 1])
    }
}

/// Taking in a range that meets adds no id and loses none.
pub proof fn lemma_hull_holds(a: Range, b: Range, id: u64)
    requires
        a.meets(b),
    ensures
        a.hull(b).holds(id) <==> (a.holds(id) || b.holds(id)),
{
}

proof fn lemma_grown_and_kept_cover(buffer: Seq<Range>, r: Range, k: int, id: u64)
    requires
        0 <= k <= buffer.len(),
    ensures
        (covered(kept(buffer, r, k), id) || grown(buffer, r, k).holds(id)) <==> (covered(
            buffer.take(k),
            id,
        ) || r.holds(id)),
        kept(buffer, r, k).len() <= k,
    decreases k,
{
    if k > 0 {
        lemma_grown_and_kept_cover(buffer, r, k - 1, id);
        let before = kept(buffer, r, k - 1);
        let so_far = grown(buffer, r, k - 1);
        let b = buffer[k - 1];
        let now = kept(buffer, r, k);
        if covered(buffer.take(k), id) {
            let w = choose|w: int| 0 <= w < buffer.take(k).len() && (#[trigger] buffer.take(k)[w]).holds(id);
            if w < k - 1 {
                assert(buffer.take(k - 1)[w].holds(id));
            } else {
                assert(b.holds(id));
            }
        }
        if covered(buffer.take(k - 1), id) {
            let w = choose|w: int|
                0 <= w < buffer.take(k - 1).len() && (#[trigger] buffer.take(k - 1)[w]).holds(id);
            assert(buffer.take(k)[w].holds(id));
        }
        if b.holds(id) {
            assert(buffer.take(k)[k - 1].holds(id));
        }
        if covered(before, id) {
            let w = choose|w: int| 0 <= w < before.len() && (#[trigger] before[w]).holds(id);
            assert(now[w].holds(id));
        }
        if covered(now, id) {
            let w = choose|w: int| 0 <= w < now.len() && (#[trigger] now[w]).holds(id);
            if w < before.len() {
                assert(before[w].holds(id));
            }
        }
        if !so_far.meets(b) {
            assert(now[before.len() as int] == b);
        }
    }
}

/// Putting ranges in the order of their starts keeps what they cover.
proof fn lemma_by_start_covers(ranges: Seq<Range>, id: u64)
    requires
        ranges.len() <= usize::MAX,
    ensures
        covered(by_start(ranges), id) <==> covered(ranges, id),
        by_start(ranges).len() == ranges.len(),
{
    let keys = start_keys(ranges);
    let rank = descending_rank(keys);
    let sorted = by_start(ranges);
    lemma_descending_rank(keys);
    if covered(sorted, id) {
        let w = choose|w: int| 0 <= w < sorted.len() && (#[trigger] sorted[w]).holds(id);
        assert(0 <= rank[w] < ranges.len());
        assert(ranges[rank[w] as int].holds(id));
    }
    if covered(ranges, id) {
        let w = choose|w: int| 0 <= w < ranges.len() && (#[trigger] ranges[w]).holds(id);
        assert(rank.contains(w as usize));
        let p = choose|p: int| 0 <= p < rank.len() && rank[p] == w as usize;
        assert(sorted[p].holds(id));
    }
}

/// Taking a range into a buffer covers what the buffer and the range
/// covered, no more and no less.
pub proof fn lemma_taken_in_covers(buffer: Seq<Range>, r: Range, id: u64)
    requires
        buffer.len() < usize::MAX,
    ensures
        covered(taken_in(buffer, r), id) <==> (covered(buffer, id) || r.holds(id)),
        taken_in(buffer, r).len() <= buffer.len() + 1,
{
    let n = buffer.len() as int;
    let rest = kept(buffer, r, n);
    let last = grown(buffer, r, n);
    let all = rest.push(last);
    lemma_grown_and_kept_cover(buffer, r, n, id);
    assert(buffer.take(n) =~= buffer);
    lemma_by_start_covers(all, id);
    if covered(all, id) {
        let w = choose|w: int| 0 <= w < all.len() && (#[trigger] all[w]).holds(id);
        if w < rest.len() {
            assert(rest[w].holds(id));
        }
    }
    if covered(rest, id) {
        let w = choose|w: int| 0 <= w < rest.len() && (#[trigger] rest[w]).holds(id);
        assert(all[w].holds(id));
    }
    if last.holds(id) {
        assert(all[rest.len() as int].holds(id));
    }
}

/// Combining ranges keeps what they cover: an id lies in one of the combined
/// ranges exactly if it lay in one of the ranges.
pub proof fn lemma_combined_covers(ranges: Seq<Range>, k: int, id: u64)
    requires
        1 <= k <= ranges.len(),
        ranges.len() <= usize::MAX,
    ensures
        covered(combined_first(ranges, k), id) <==> covered(ranges.take(k), id),
        1 <= combined_first(ranges, k).len() <= k,
    decreases k,
{
    if k <= 1 {
        let one = combined_first(ranges, k);
        assert(one[0] == ranges[0]);
        assert(ranges.take(k)[0] == ranges[0]);
        if covered(one, id) {
            let w = choose|w: int| 0 <= w < one.len() && (#[trigger] one[w]).holds(id);
            assert(ranges.take(k)[0].holds(id));
        }
        if covered(ranges.take(k), id) {
            let w = choose|w: int| 0 <= w < ranges.take(k).len() && (#[trigger] ranges.take(k)[w]).holds(id);
            assert(one[0].holds(id));
        }
    } else {
        lemma_combined_covers(ranges, k - 1, id);
        let buffer = combined_first(ranges, k - 1);
        lemma_taken_in_covers(buffer, ranges[k - 1], id);
        lemma_taken_in_is_not_empty(buffer, ranges[k - 1]);
        if covered(ranges.take(k), id) {
            let w = choose|w: int| 0 <= w < ranges.take(k).len() && (#[trigger] ranges.take(k)[w]).holds(id);
            if w < k - 1 {
                assert(ranges.take(k - 1)[w].holds(id));
            }
        }
        if covered(ranges.take(k - 1), id) {
            let w = choose|w: int|
                0 <= w < ranges.take(k - 1).len() && (#[trigger] ranges.take(k - 1)[w]).holds(id);
            assert(ranges.take(k)[w].holds(id));
        }
        if ranges[k - 1].holds(id) {
            assert(ranges.take(k)[k - 1].holds(id));
        }
    }
}

/// No range ends before it starts and no two of the ranges meet.
pub open spec fn apart(ranges: Seq<Range>) -> bool {
    &&& all_proper(ranges)
    &&& forall|i: int, j: int|
        0 <= i < j < ranges.len() ==> !(#[trigger] ranges[i]).meets(#[trigger] ranges[j])
}

/// The starts of the ranges never fall.
pub open spec fn starts_rise(ranges: Seq<Range>) -> bool {
    forall|i: int, j: int|
        0 <= i < j < ranges.len() ==> (#[trigger] ranges[i]).start <= (#[trigger] ranges[j]).start
}

proof fn lemma_grown_and_kept_apart(buffer: Seq<Range>, r: Range, k: int)
    requires
        apart(buffer),
        r.start <= r.end,
        0 <= k <= buffer.len(),
    ensures
        grown(buffer, r, k).start <= grown(buffer, r, k).end,
        apart(kept(buffer, r, k)),
        forall|i: int|
            0 <= i < kept(buffer, r, k).len() ==> !(#[trigger] kept(buffer, r, k)[i]).meets(
                grown(buffer, r, k),
            ),
        forall|i: int|
            0 <= i < kept(buffer, r, k).len() ==> buffer.take(k).contains(
                #[trigger] kept(buffer, r, k)[i],
            ),
    decreases k,
{
    if k > 0 {
        lemma_grown_and_kept_apart(buffer, r, k - 1);
        let before = kept(buffer, r, k - 1);
        let so_far = grown(buffer, r, k - 1);
        let b = buffer[k - 1];
        let now = kept(buffer, r, k);
        let next = grown(buffer, r, k);
        assert(b.start <= b.end);
        assert forall|i: int| 0 <= i < before.len() implies !(#[trigger] before[i]).meets(b)
            && before[i].start <= before[i].end && buffer.take(k).contains(before[i]) by {
            let earlier = buffer.take(k - 1);
            assert(earlier.contains(before[i]));
            let w = choose|w: int| 0 <= w < earlier.len() && earlier[w] == before[i];
            assert(buffer[w] == before[i]);
            assert(!buffer[w].meets(buffer[k - 1]));
            assert(buffer.take(k)[w] == before[i]);
        }
        assert forall|i: int| 0 <= i < now.len() implies !(#[trigger] now[i]).meets(next)
            && buffer.take(k).contains(now[i]) && now[i].start <= now[i].end by {
            if i < before.len() {
                assert(now[i] == before[i]);
                assert(!before[i].meets(so_far));
                assert(!before[i].meets(b));
            } else {
                assert(now[i] == b);
                assert(buffer.take(k)[k - 1] == b);
            }
        }
        assert forall|i: int, j: int| 0 <= i < j < now.len() implies !(#[trigger] now[i]).meets(
            #[trigger] now[j],
        ) by {
            assert(now[i] == before[i]);
            if j < before.len() {
                assert(now[j] == before[j]);
            } else {
                assert(now[j] == b);
                assert(!before[i].meets(b));
            }
        }
    }
}

/// Putting ranges that are apart in the order of their starts leaves them
/// apart, and their starts rise.
proof fn lemma_by_start_apart(ranges: Seq<Range>)
    requires
        ranges.len() <= usize::MAX,
    ensures
        starts_rise(by_start(ranges)),
        apart(ranges) ==> apart(by_start(ranges)),
{
    let keys = start_keys(ranges);
    let rank = descending_rank(keys);
    let sorted = by_start(ranges);
    lemma_descending_rank(keys);
    assert forall|i: int, j: int| 0 <= i < j < sorted.len() implies (#[trigger] sorted[i]).start <= (
    #[trigger] sorted[j]).start by {
        assert(precedes(keys, rank[i], rank[j]));
        assert(0 <= rank[i] < ranges.len());
        assert(0 <= rank[j] < ranges.len());
    }
    if apart(ranges) {
        assert forall|k: int| 0 <= k < sorted.len() implies (#[trigger] sorted[k]).start
            <= sorted[k].end by {
            assert(0 <= rank[k] < ranges.len());
            assert(ranges[rank[k] as int].start <= ranges[rank[k] as int].end);
        }
        assert forall|i: int, j: int| 0 <= i < j < sorted.len() implies !(#[trigger] sorted[i]).meets(
            #[trigger] sorted[j],
        ) by {
            assert(precedes(keys, rank[i], rank[j]));
            let a = rank[i] as int;
            let b = rank[j] as int;
            assert(0 <= rank[i] < ranges.len());
            assert(0 <= rank[j] < ranges.len());
            if a < b {
                assert(!ranges[a].meets(ranges[b]));
            } else {
                assert(!ranges[b].meets(ranges[a]));
            }
        }
    }
}

/// Combined ranges are in the order of their starts; where no range ended
/// before it started, no range among the combined ones does, and no two of
/// them meet.
pub proof fn lemma_combined_is_apart(ranges: Seq<Range>, k: int)
    requires
        1 <= k <= ranges.len(),
        ranges.len() <= usize::MAX,
    ensures
        starts_rise(combined_first(ranges, k)),
        all_proper(ranges) ==> apart(combined_first(ranges, k)),
        1 <= combined_first(ranges, k).len() <= k,
    decreases k,
{
    lemma_combined_covers(ranges, k, 0);
    if k <= 1 {
        let one = combined_first(ranges, k);
        assert(one[0] == ranges[0]);
    } else {
        lemma_combined_is_apart(ranges, k - 1);
        let buffer = combined_first(ranges, k - 1);
        let r = ranges[k - 1];
        let n = buffer.len() as int;
        let all = kept(buffer, r, n).push(grown(buffer, r, n));
        lemma_grown_and_kept_cover(buffer, r, n, 0);
        lemma_by_start_apart(all);
        if all_proper(ranges) {
            lemma_grown_and_kept_apart(buffer, r, n);
            assert forall|i: int, j: int| 0 <= i < j < all.len() implies !(#[trigger] all[i]).meets(
                #[trigger] all[j],
            ) by {
                assert(all[i] == kept(buffer, r, n)[i]);
                if j < all.len() - 1 {
                    assert(all[j] == kept(buffer, r, n)[j]);
                }
            }
            assert forall|i: int| 0 <= i < all.len() implies (#[trigger] all[i]).start
                <= all[i].end by {
                if i < all.len() - 1 {
                    assert(all[i] == kept(buffer, r, n)[i]);
                }
            }
        }
    }
}

proof fn lemma_taken_in_is_not_empty(buffer: Seq<Range>, r: Range)
    requires
        buffer.len() < usize::MAX,
    ensures
        taken_in(buffer, r).len() >= 1,
{
    let n = buffer.len() as int;
    let all = kept(buffer, r, n).push(grown(buffer, r, n));
    lemma_grown_and_kept_cover(buffer, r, n, 0);
    lemma_by_start_covers(all, 0);
}

/// No range ends before it starts.
pub open spec fn all_proper(ranges: Seq<Range>) -> bool {
    forall|k: int| 0 <= k < ranges.len() ==> (#[trigger] ranges[k]).start <= ranges[k].end
}

/// The sum of the numbers of ids that the ranges hold, each range for
/// itself.
pub open spec fn total_count(ranges: Seq<Range>) -> int
    decreases ranges.len(),
{
    if ranges.len() == 0 {
        0
    } else {
        total_count(ranges.drop_last()) + ranges.last().count()
    }
}

proof fn lemma_total_count_grows(ranges: Seq<Range>, k: int)
    requires
        all_proper(ranges),
        0 <= k <= ranges.len(),
    ensures
        0 <= total_count(ranges.take(k)) <= total_count(ranges),
    decreases ranges.len(),
{
    if k == ranges.len() {
        assert(ranges.take(k) =~= ranges);
        if k > 0 {
            assert(all_proper(ranges.drop_last())) by {
                assert forall|i: int| 0 <= i < ranges.drop_last().len() implies (
                #[trigger] ranges.drop_last()[i]).start <= ranges.drop_last()[i].end by {
                    assert(ranges.drop_last()[i] == ranges[i]);
                }
            }
            lemma_total_count_grows(ranges.drop_last(), k - 1);
            assert(ranges[ranges.len() - 1].start <= ranges[ranges.len() - 1].end);
        }
    } else {
        assert(all_proper(ranges.drop_last())) by {
            assert forall|i: int| 0 <= i < ranges.drop_last().len() implies (
            #[trigger] ranges.drop_last()[i]).start <= ranges.drop_last()[i].end by {
                assert(ranges.drop_last()[i] == ranges[i]);
            }
        }
        lemma_total_count_grows(ranges.drop_last(), k);
        assert(ranges.drop_last().take(k) =~= ranges.take(k));
        assert(ranges[ranges.len() - 1].start <= ranges[ranges.len() - 1].end);
    }
}

/// The index of the first empty line, from `from` on, that is not the last
/// line; the number of lines where there is none.
pub open spec fn first_blank(lines: Seq<Seq<char>>, from: int) -> int
    decreases lines.len() - from,
{
    if from >= lines.len() - 1 {
        lines.len() as int
    } else if lines[from].len() == 0 {
        from
    } else {
        first_blank(lines, from + 1)
    }
}

/// The lines of the first block of the text: the lines before the first
/// blank line that follows a line, or all lines where there is none. The
/// lines end at line feeds.
pub open spec fn first_block(text: Seq<char>) -> Seq<Seq<char>> {
    let lines = split_on(text, '\n');
    lines.take(first_blank(lines, 1))
}

/// Every line of the first block is a range.
pub open spec fn block_is_ranges(text: Seq<char>) -> bool {
    forall|i: int|
        0 <= i < first_block(text).len() ==> Range::written_in(#[trigger] first_block(text)[i]) is Some
}

/// The ranges that the lines of the first block say.
pub open spec fn ranges_in(text: Seq<char>) -> Seq<Range> {
    Seq::new(first_block(text).len(), |i: int| Range::written_in(first_block(text)[i])->0)
}

/// The ranges of the text, combined.
pub open spec fn combined_in(text: Seq<char>) -> Seq<Range> {
    combined_first(ranges_in(text), ranges_in(text).len() as int)
}

proof fn lemma_first_blank(lines: Seq<Seq<char>>, from: int)
    requires
        1 <= from,
        lines.len() >= 1,
    ensures
        1 <= first_blank(lines, from) <= lines.len(),
    decreases lines.len() - from,
{
    if from < lines.len() - 1 && lines[from].len() != 0 {
        lemma_first_blank(lines, from + 1);
    }
}

/// How many ids the ranges of the first block of the text hold when they
/// are combined, each combined range counted for itself. No number where a
/// line of the block is no range, a combined range ends before it starts or
/// the number does not fit in 64 bits.
#[verifier::loop_isolation(false)]
pub fn fresh_total(input: &str) -> (total: Option<u64>)
    ensures
        total is Some <==> block_is_ranges(input@) && all_proper(combined_in(input@))
            && total_count(combined_in(input@)) <= u64::MAX,
        total is Some ==> total->0 == total_count(combined_in(input@)),
{
    let chars = chars_of(input);
    let rows = split(&chars, '\n');
    let ghost lines = split_on(input@, '\n');
    let mut end: usize = 1;
    proof {
        lemma_first_blank(lines, 1);
    }
    let last = rows.len() - 1;
    while end < last && rows[end].len() != 0
        invariant
            1 <= end,
            end <= rows@.len(),
            first_blank(lines, end as int) == first_blank(lines, 1),
        decreases rows@.len() - end,
    {
        assert(lines[end as int] == rows@[end as int]@);
        end = end + 1;
    }
    proof {
        if end < last {
            assert(lines[end as int] == rows@[end as int]@);
        }
    }
    let stop = if end < last {
        end
    } else {
        rows.len()
    };
    assert(stop == first_blank(lines, 1));
    let ghost block = first_block(input@);
    let mut ranges: Vec<Range> = Vec::new();
    let mut i: usize = 0;
    while i < stop
        invariant
            i <= stop,
            ranges@.len() == i,
            forall|k: int| 0 <= k < i ==> Range::written_in(#[trigger] block[k]) is Some,
            forall|k: int| 0 <= k < i ==> #[trigger] ranges@[k] == Range::written_in(block[k])->0,
        decreases stop - i,
    {
        assert(block[i as int] == rows@[i as int]@) by {
            assert(lines[i as int] == rows@[i as int]@);
        }
        match Range::read_chars(&rows[i]) {
            Some(range) => {
                ranges.push(range);
            },
            None => {
                return None;
            },
        }
        i = i + 1;
    }
    assert(ranges@ =~= ranges_in(input@));
    let mut all = Ranges::new(ranges);
    all.combine();
    all.size()
}

impl Ranges {
    /// These ranges, as they are.
    pub fn new(ranges: Vec<Range>) -> (made: Self)
        ensures
            made.ranges == ranges,
    {
        Self { ranges }
    }

    /// The sum of the numbers of ids that the ranges hold, each range for
    /// itself: none where a range ends before it starts or the sum does not
    /// fit in 64 bits.
    pub fn size(&self) -> (size: Option<u64>)
        ensures
            size is Some <==> all_proper(self.ranges@) && total_count(self.ranges@) <= u64::MAX,
            size is Some ==> size->0 == total_count(self.ranges@),
    {
        let mut size: u64 = 0;
        let mut i: usize = 0;
        assert(self.ranges@.take(0) =~= Seq::<Range>::empty());
        while i < self.ranges.len()
            invariant
                i <= self.ranges@.len(),
                all_proper(self.ranges@.take(i as int)),
                size == total_count(self.ranges@.take(i as int)),
            decreases self.ranges@.len() - i,
        {
            proof {
                assert(self.ranges@.take(i + 1).drop_last() =~= self.ranges@.take(i as int));
                assert(self.ranges@.take(i + 1).last() == self.ranges@[i as int]);
                if all_proper(self.ranges@) {
                    lemma_total_count_grows(self.ranges@, i + 1);
                }
            }
            let r = self.ranges[i];
            if r.end < r.start {
                return None;
            }
            let count = match (r.end - r.start).checked_add(1) {
                Some(count) => count,
                None => {
                    return None;
                },
            };
            match size.checked_add(count) {
                Some(more) => {
                    size = more;
                },
                None => {
                    return None;
                },
            }
            proof {
                assert forall|k: int| 0 <= k < i + 1 implies (#[trigger] self.ranges@.take(
                    i + 1,
                )[k]).start <= self.ranges@.take(i + 1)[k].end by {
                    if k < i {
                        assert(self.ranges@.take(i as int)[k] == self.ranges@.take(i + 1)[k]);
                    }
                }
            }
            i = i + 1;
        }
        assert(self.ranges@.take(self.ranges@.len() as int) =~= self.ranges@);
        Some(size)
    }

    /// How many of the items lie in one of the ranges.
    pub fn score(&self, items: Vec<Item>) -> (score: u64)
        ensures
            score == fresh_count(self.ranges@, items@),
    {
        let mut score: u64 = 0;
        let mut i: usize = 0;
        assert(items@.take(0) =~= Seq::<Item>::empty());
        while i < items.len()
            invariant
                i <= items@.len(),
                score == fresh_count(self.ranges@, items@.take(i as int)),
                score <= i,
            decreases items@.len() - i,
        {
            let mut found = false;
            let mut k: usize = 0;
            while k < self.ranges.len() && !found
                invariant
                    k <= self.ranges@.len(),
                    i < items@.len(),
                    found ==> covered(self.ranges@, items@[i as int].id),
                    !found ==> forall|q: int|
                        0 <= q < k ==> !(#[trigger] self.ranges@[q]).holds(items@[i as int].id),
                decreases self.ranges@.len() - k + if found { 0int } else { 1int },
            {
                if self.ranges[k].is_item_fresh(&items[i]) {
                    found = true;
                } else {
                    k = k + 1;
                }
            }
            proof {
                assert(items@.take(i + 1).drop_last() =~= items@.take(i as int));
                assert(items@.take(i + 1).last() == items@[i as int]);
            }
            if found {
                score = score + 1;
            }
            i = i + 1;
        }
        assert(items@.take(items@.len() as int) =~= items@);
        score
    }

    /// Combines the ranges from the left: each range takes in the ranges
    /// before it that it meets. What is left is in the order of the starts
    /// and covers what the ranges covered.
    pub fn combine(&mut self)
        requires
            old(self).ranges@.len() > 0,
        ensures
            final(self).ranges@ == combined_first(
                old(self).ranges@,
                old(self).ranges@.len() as int,
            ),
            forall|id: u64|
                covered(final(self).ranges@, id) <==> covered(old(self).ranges@, id),
            starts_rise(final(self).ranges@),
            all_proper(old(self).ranges@) ==> apart(final(self).ranges@),
    {
        let ghost all = self.ranges@;
        let mut buffer: Vec<Range> = Vec::new();
        buffer.push(self.ranges[0]);
        assert(buffer@ =~= combined_first(all, 1));
        let mut i: usize = 1;
        while i < self.ranges.len()
            invariant
                1 <= i <= all.len(),
                self.ranges@ == all,
                buffer@ == combined_first(all, i as int),
            decreases all.len() - i,
        {
            let r = self.ranges[i];
            let mut r_clone = r;
            let mut local: Vec<Range> = Vec::new();
            let mut k: usize = 0;
            while k < buffer.len()
                invariant
                    k <= buffer@.len(),
                    r_clone == grown(buffer@, r, k as int),
                    local@ == kept(buffer@, r, k as int),
                decreases buffer@.len() - k,
            {
                let b = buffer[k];
                let combined = r_clone.combine(&b);
                if combined.len() == 1 {
                    r_clone = combined[0];
                } else {
                    local.push(b);
                }
                k = k + 1;
            }
            local.push(r_clone);
            let mut keys: Vec<u64> = Vec::new();
            let mut p: usize = 0;
            while p < local.len()
                invariant
                    p <= local@.len(),
                    keys@ == start_keys(local@).take(p as int),
                decreases local@.len() - p,
            {
                keys.push(u64::MAX - local[p].start);
                assert(start_keys(local@).take(p + 1) =~= start_keys(local@).take(p as int).push(
                    (u64::MAX - local@[p as int].start) as u64,
                ));
                p = p + 1;
            }
            assert(keys@ =~= start_keys(local@));
            let rank = rank_descending(&keys);
            let mut sorted: Vec<Range> = Vec::new();
            let mut q: usize = 0;
            while q < rank.len()
                invariant
                    q <= rank@.len(),
                    rank@.len() == local@.len(),
                    forall|w: int| 0 <= w < rank@.len() ==> 0 <= #[trigger] rank@[w] < local@.len(),
                    sorted@ == arrange(local@, rank@).take(q as int),
                decreases rank@.len() - q,
            {
                sorted.push(local[rank[q]]);
                assert(arrange(local@, rank@).take(q + 1) =~= arrange(local@, rank@).take(
                    q as int,
                ).push(local@[rank@[q as int] as int]));
                q = q + 1;
            }
            assert(sorted@ =~= arrange(local@, rank@));
            buffer = sorted;
            i = i + 1;
        }
        proof {
            assert(all.take(all.len() as int) =~= all);
            assert forall|id: u64| covered(buffer@, id) <==> covered(all, id) by {
                lemma_combined_covers(all, all.len() as int, id);
            }
            lemma_combined_is_apart(all, all.len() as int);
        }
        self.ranges = buffer;
    }
}

} // verus!
