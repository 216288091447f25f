//! Ids and ranges of ids. An id is invalid if its decimal digits are one
//! block of digits written twice or more often.

use crate::text::{chars_of, parse_pair, split, split_on, trim_end, trimmed_end, written_pair};
use vstd::prelude::*;

verus! {

/// The character of the decimal digit `d`.
pub open spec fn digit_char(d: nat) -> char {
    ((48 + d) as u8) as char
}

/// The decimal digits of `n`, without leading zeros.
pub open spec fn decimal(n: nat) -> Seq<char>
    decreases n,
{
    if n < 10 {
        seq![digit_char(n)]
    } else {
        decimal(n / 10).push(digit_char(n % 10))
    }
}

/// `s` is a block of `s.len() / times` characters written `times` times.
pub open spec fn repeats(s: Seq<char>, times: int) -> bool {
    &&& 2 <= times <= s.len()
    &&& s.len() as int % times == 0
    &&& forall|i: int| 0 <= i < s.len() ==> #[trigger] s[i] == s[i % (s.len() as int / times)]
}

/// `s` is some block written twice or more often.
pub open spec fn is_repetition(s: Seq<char>) -> bool {
    exists|times: int| #[trigger] repeats(s, times)
}

/// The characters of the decimal digits `digits`.
pub open spec fn digits_of(digits: Seq<u8>) -> Seq<char> {
    Seq::new(digits.len(), |i: int| digit_char(digits[i] as nat))
}

/// The decimal digit `d` as text.
fn digit_text(d: u8) -> (text: &'static str)
    requires
        d <= 9,
    ensures
        text@ == seq![digit_char(d as nat)],
{
    proof {
        reveal_strlit("0");
        reveal_strlit("1");
        reveal_strlit("2");
        reveal_strlit("3");
        reveal_strlit("4");
        reveal_strlit("5");
        reveal_strlit("6");
        reveal_strlit("7");
        reveal_strlit("8");
        reveal_strlit("9");
    }
    let text = if d == 0 {
        "0"
    } else if d == 1 {
        "1"
    } else if d == 2 {
        "2"
    } else if d == 3 {
        "3"
    } else if d == 4 {
        "4"
    } else if d == 5 {
        "5"
    } else if d == 6 {
        "6"
    } else if d == 7 {
        "7"
    } else if d == 8 {
        "8"
    } else {
        "9"
    };
    assert(text@ =~= seq![digit_char(d as nat)]);
    text
}

/// An id with its decimal digits.
#[derive(Debug, PartialEq)]
pub struct Id {
    stri: String,
    num: u64,
}

impl Id {
    /// The number of the id.
    pub closed spec fn number(&self) -> u64 {
        self.num
    }

    /// The digits of the id.
    pub closed spec fn digits(&self) -> Seq<char> {
        self.stri@
    }

    /// The digits are those of the number.
    pub open spec fn wf(&self) -> bool {
        self.digits() == decimal(self.number() as nat)
    }

    /// The id of this number, with its decimal digits.
    pub fn new(num: u64) -> (id: Self)
        ensures
            id.number() == num,
            id.wf(),
    {
        let mut backwards: Vec<u8> = Vec::new();
        let mut rest = num;
        while rest >= 10
            invariant
                forall|k: int| 0 <= k < backwards@.len() ==> #[trigger] backwards@[k] <= 9,
                decimal(rest as nat) + digits_of(backwards@).reverse() == decimal(num as nat),
            decreases rest,
        {
            let d = (rest % 10) as u8;
            let ghost before = digits_of(backwards@);
            backwards.push(d);
            proof {
                assert(decimal(rest as nat) == decimal((rest / 10) as nat).push(
                    digit_char((rest % 10) as nat),
                ));
                assert(digits_of(backwards@).reverse() =~= seq![digit_char((rest % 10) as nat)]
                    + before.reverse());
                assert(decimal((rest / 10) as nat) + digits_of(backwards@).reverse() =~= decimal(
                    rest as nat,
                ) + before.reverse());
            }
            rest = rest / 10;
        }
        let ghost before = digits_of(backwards@);
        backwards.push(rest as u8);
        proof {
            assert(digits_of(backwards@).reverse() =~= decimal(rest as nat) + before.reverse());
        }
        let ghost forwards = digits_of(backwards@).reverse();
        let mut stri = String::new();
        let mut i: usize = backwards.len();
        while i > 0
            invariant
                i <= backwards@.len(),
                forall|k: int| 0 <= k < backwards@.len() ==> #[trigger] backwards@[k] <= 9,
                forwards == digits_of(backwards@).reverse(),
                stri@ == forwards.take(backwards@.len() - i),
            decreases i,
        {
            i = i - 1;
            stri.append(digit_text(backwards[i]));
            assert(forwards.take(backwards@.len() - i) =~= forwards.take(
                backwards@.len() - i - 1,
            ) + seq![digit_char(backwards@[i as int] as nat)]);
        }
        assert(stri@ =~= forwards);
        Self { stri, num }
    }

    /// The number of the id.
    pub fn num(&self) -> (num: u64)
        ensures
            num == self.number(),
    {
        self.num
    }

    /// The digits of the id.
    pub fn stri(&self) -> (stri: &str)
        ensures
            stri@ == self.digits(),
    {
        self.stri.as_str()
    }

    /// Whether the digits are not one block written twice or more often.
    pub fn is_valid(&self) -> (valid: bool)
        ensures
            valid == !is_repetition(self.digits()),
    {
        let chars = chars_of(self.stri.as_str());
        let l = chars.len();
        let mut d: usize = 2;
        while d <= l
            invariant
                2 <= d,
                d <= l + 1 || d == 2,
                l == chars@.len(),
                chars@ == self.digits(),
                forall|times: int| 2 <= times < d ==> !#[trigger] repeats(chars@, times),
            decreases l + 1 - d,
        {
            if is_written_times(&chars, d) {
                return false;
            }
            if d == l {
                return true;
            }
            d = d + 1;
        }
        true
    }
}

/// Whether `chars` is a block written `times` times.
fn is_written_times(chars: &Vec<char>, times: usize) -> (written: bool)
    requires
        2 <= times <= chars@.len(),
    ensures
        written == repeats(chars@, times as int),
{
    let l = chars.len();
    if l % times != 0 {
        return false;
    }
    let block = l / times;
    assert(1 <= block <= l) by (nonlinear_arith)
        requires
            block == l / times,
            l % times == 0,
            2 <= times <= l,
    ;
    let mut i: usize = 0;
    while i < l
        invariant
            i <= l,
            l == chars@.len(),
            1 <= block <= l,
            2 <= times <= l,
            l as int % times as int == 0,
            block == l as int / times as int,
            forall|q: int| 0 <= q < i ==> #[trigger] chars@[q] == chars@[q % (block as int)],
        decreases l - i,
    {
        if chars[i] != chars[i % block] {
            assert(chars@[i as int] != chars@[i as int % (chars@.len() as int / times as int)]);
            return false;
        }
        i = i + 1;
    }
    true
}

/// The ids from `start` to `end`, both included.
#[derive(Debug, PartialEq)]
pub struct Range {
    start: Id,
    end: Id,
    range: Vec<Id>,
}

/// The sum of the numbers of the invalid ids among `ids`.
pub open spec fn invalid_sum(ids: Seq<Id>) -> nat
    decreases ids.len(),
{
    if ids.len() == 0 {
        0
    } else {
        invalid_sum(ids.drop_last()) + if is_repetition(ids.last().digits()) {
            ids.last().number() as nat
        } else {
            0nat
        }
    }
}

impl Range {
    /// The ids of the range, in rising order.
    pub closed spec fn ids(&self) -> Seq<Id> {
        self.range@
    }

    /// The first id of the range.
    pub closed spec fn first(&self) -> Id {
        self.start
    }

    /// The last id of the range.
    pub closed spec fn last(&self) -> Id {
        self.end
    }

    /// The ids are `from`, `from + 1` and so on up to `to`, each with its
    /// digits: none at all where `from` is larger than `to`.
    pub open spec fn spans(&self, from: u64, to: u64) -> bool {
        &&& self.first().number() == from && self.first().wf()
        &&& self.last().number() == to && self.last().wf()
        &&& self.ids().len() == if from <= to {
            to - from + 1
        } else {
            0
        }
        &&& forall|i: int|
            0 <= i < self.ids().len() ==> (#[trigger] self.ids()[i]).number() == from + i
                && self.ids()[i].wf()
    }

    /// The two ends of a range written as `start-end`, if the text is
    /// written so.
    pub fn read_ends(pair: &str) -> (ends: Option<(u64, u64)>)
        ensures
            ends == written_pair(pair@, '-', u64::MAX),
    {
        let chars = chars_of(pair);
        parse_pair(&chars, '-', 0xffff_ffff_ffff_ffff)
    }

    /// The range of the ids from `start` to `end`.
    pub fn new(start: u64, end: u64) -> (range: Self)
        requires
            start <= end ==> end - start < usize::MAX,
        ensures
            range.spans(start, end),
    {
        let mut range: Vec<Id> = Vec::new();
        if start <= end {
            let mut next = start;
            while next < end
                invariant
                    start <= next <= end,
                    range@.len() == next - start,
                    forall|i: int|
                        0 <= i < range@.len() ==> (#[trigger] range@[i]).number() == start + i
                            && range@[i].wf(),
                decreases end - next,
            {
                range.push(Id::new(next));
                next = next + 1;
            }
            range.push(Id::new(end));
        }
        Self { start: Id::new(start), end: Id::new(end), range }
    }

    /// The ids of the range.
    pub fn range(&self) -> (ids: &Vec<Id>)
        ensures
            ids@ == self.ids(),
    {
        &self.range
    }

    /// The first id of the range.
    pub fn start(&self) -> (id: &Id)
        ensures
            *id == self.first(),
    {
        &self.start
    }

    /// The last id of the range.
    pub fn end(&self) -> (id: &Id)
        ensures
            *id == self.last(),
    {
        &self.end
    }

    /// The sum of the numbers of the invalid ids of the range, unless it
    /// does not fit in 64 bits.
    pub fn try_sum_invalid(&self) -> (sum: Option<u64>)
        ensures
            sum is Some <==> invalid_sum(self.ids()) <= u64::MAX,
            sum is Some ==> sum->0 == invalid_sum(self.ids()),
    {
        let mut sum: u64 = 0;
        let mut i: usize = 0;
        assert(self.range@.take(0) =~= Seq::<Id>::empty());
        while i < self.range.len()
            invariant
                i <= self.range@.len(),
                sum == invalid_sum(self.range@.take(i as int)),
            decreases self.range@.len() - i,
        {
            proof {
                assert(self.range@.take(i + 1).drop_last() =~= self.range@.take(i as int));
                assert(self.range@.take(i + 1).last() == self.range@[i as int]);
                lemma_invalid_sum_grows(self.range@, i + 1);
            }
            if !self.range[i].is_valid() {
                match sum.checked_add(self.range[i].num()) {
                    Some(more) => {
                        sum = more;
                    },
                    None => {
                        return None;
                    },
                }
            }
            i = i + 1;
        }
        assert(self.range@.take(self.range@.len() as int) =~= self.range@);
        Some(sum)
    }

    /// The sum of the numbers of the invalid ids of the range.
    pub fn sum_invalid(&self) -> (sum: u64)
        requires
            invalid_sum(self.ids()) <= u64::MAX,
        ensures
            sum == invalid_sum(self.ids()),
    {
        let mut sum: u64 = 0;
        let mut i: usize = 0;
        assert(self.range@.take(0) =~= Seq::<Id>::empty());
        while i < self.range.len()
            invariant
                i <= self.range@.len(),
                invalid_sum(self.range@) <= u64::MAX,
                sum == invalid_sum(self.range@.take(i as int)),
            decreases self.range@.len() - i,
        {
            proof {
                assert(self.range@.take(i + 1).drop_last() =~= self.range@.take(i as int));
                assert(self.range@.take(i + 1).last() == self.range@[i as int]);
                lemma_invalid_sum_grows(self.range@, i + 1);
            }
            if !self.range[i].is_valid() {
                sum = sum + self.range[i].num();
            }
            i = i + 1;
        }
        assert(self.range@.take(self.range@.len() as int) =~= self.range@);
        sum
    }
}

/// The sum of the invalid numbers among the `count` numbers from `from` on.
pub open spec fn invalid_between(from: u64, count: nat) -> nat
    decreases count,
{
    if count == 0 {
        0
    } else {
        invalid_between(from, (count - 1) as nat) + if is_repetition(
            decimal((from + count - 1) as nat),
        ) {
            (from + count - 1) as nat
        } else {
            0nat
        }
    }
}

/// How many numbers there are from `from` to `to`.
pub open spec fn span(from: u64, to: u64) -> nat {
    if from <= to {
        (to - from + 1) as nat
    } else {
        0
    }
}

/// The invalid ids of a range sum up to the invalid numbers between its
/// ends.
pub proof fn lemma_invalid_sum_of_ids(ids: Seq<Id>, from: u64)
    requires
        forall|i: int|
            0 <= i < ids.len() ==> (#[trigger] ids[i]).number() == from + i && ids[i].wf(),
    ensures
        invalid_sum(ids) == invalid_between(from, ids.len()),
    decreases ids.len(),
{
    if ids.len() > 0 {
        let fewer = ids.drop_last();
        assert forall|i: int| 0 <= i < fewer.len() implies (#[trigger] fewer[i]).number() == from
            + i && fewer[i].wf() by {
            assert(fewer[i] == ids[i]);
        }
        lemma_invalid_sum_of_ids(fewer, from);
        assert(ids.last() == ids[ids.len() - 1]);
    }
}

/// The sum that the first `k` of the pieces come to, each piece a range
/// written as `start-end`: the invalid numbers of all the ranges. No sum
/// where a piece is no range, a range holds more ids than a machine word
/// counts, or a sum does not fit in 64 bits.
pub open spec fn invalid_total_of(pieces: Seq<Seq<char>>, k: int) -> Option<u64>
    decreases k,
{
    if k <= 0 {
        Some(0u64)
    } else {
        match (invalid_total_of(pieces, k - 1), written_pair(pieces[k - 1], '-', u64::MAX)) {
            (Some(before), Some(ends)) => {
                let sum = invalid_between(ends.0, span(ends.0, ends.1));
                if span(ends.0, ends.1) <= usize::MAX && before + sum <= u64::MAX {
                    Some((before + sum) as u64)
                } else {
                    None
                }
            },
            _ => None,
        }
    }
}

proof fn lemma_invalid_total_breaks(pieces: Seq<Seq<char>>, k: int, upto: int)
    requires
        0 <= k <= upto,
        invalid_total_of(pieces, k) is None,
    ensures
        invalid_total_of(pieces, upto) is None,
    decreases upto - k,
{
    if k < upto {
        lemma_invalid_total_breaks(pieces, k, upto - 1);
    }
}

/// The sum of the invalid ids of the ranges of the text, which stand in one
/// line with commas between them; white space at the end of the text counts
/// for nothing.
#[verifier::loop_isolation(false)]
pub fn invalid_total(input: &str) -> (total: Option<u64>)
    ensures
        total == invalid_total_of(
            split_on(trimmed_end(input@), ','),
            split_on(trimmed_end(input@), ',').len() as int,
        ),
{
    let mut chars = chars_of(input);
    let end = trim_end(&chars);
    chars.truncate(end);
    assert(chars@ =~= trimmed_end(input@));
    let pieces = split(&chars, ',');
    let ghost text = split_on(trimmed_end(input@), ',');
    let mut total: u64 = 0;
    let mut k: usize = 0;
    while k < pieces.len()
        invariant
            k <= pieces@.len(),
            invalid_total_of(text, k as int) == Some(total),
        decreases pieces@.len() - k,
    {
        assert(text[k as int] == pieces@[k as int]@);
        let ends = match parse_pair(&pieces[k], '-', 0xffff_ffff_ffff_ffff) {
            Some(ends) => ends,
            None => {
                proof {
                    lemma_invalid_total_breaks(text, k + 1, text.len() as int);
                }
                return None;
            },
        };
        let first = ends.0;
        let second = ends.1;
        if first <= second && second - first >= usize::MAX as u64 {
            proof {
                lemma_invalid_total_breaks(text, k + 1, text.len() as int);
            }
            return None;
        }
        let range = Range::new(first, second);
        proof {
            lemma_invalid_sum_of_ids(range.ids(), first);
        }
        let sum = match range.try_sum_invalid() {
            Some(sum) => sum,
            None => {
                proof {
                    lemma_invalid_total_breaks(text, k + 1, text.len() as int);
                }
                return None;
            },
        };
        total = match total.checked_add(sum) {
            Some(total) => total,
            None => {
                proof {
                    lemma_invalid_total_breaks(text, k + 1, text.len() as int);
                }
                return None;
            },
        };
        k = k + 1;
    }
    Some(total)
}

/// The sum over the first `k` ids is no more than the sum over all of them.
pub proof fn lemma_invalid_sum_grows(ids: Seq<Id>, k: int)
    requires
        0 <= k <= ids.len(),
    ensures
        invalid_sum(ids.take(k)) <= invalid_sum(ids),
    decreases ids.len(),
{
    if k == ids.len() {
        assert(ids.take(k) =~= ids);
    } else {
        lemma_invalid_sum_grows(ids.drop_last(), k);
        assert(ids.drop_last().take(k) =~= ids.take(k));
    }
}

} // verus!
