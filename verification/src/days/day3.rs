//! Banks of batteries. Twelve batteries of a bank are switched on, in their
//! order, and their joltages, read as the digits of one number, give the
//! joltage of the bank. The choice is made digit by digit, each time the
//! largest joltage that still leaves enough batteries for the digits to come.

use crate::text::{all_digits, chars_of, digit_value, is_digit, lines, lines_of, pieces_of};
use vstd::prelude::*;

verus! {

/// How many batteries of a bank are switched on.
pub const SWITCHED_ON: usize = 12;

/// A battery with its joltage, a single digit.
#[derive(Debug, PartialEq, Eq, Clone, Copy, Structural)]
pub struct Battery {
    pub joltage: u8,
}

/// A row of batteries and the joltage that twelve of them give.
pub struct Bank {
    pub batteries: Vec<Battery>,
    pub joltage: u64,
}

impl Battery {
    /// A battery of this joltage.
    pub fn new(joltage: u8) -> (battery: Self)
        ensures
            battery == (Battery { joltage }),
    {
        Self { joltage }
    }
}

/// The index of the first battery of `s[from..to]` whose joltage none of
/// the others in that stretch exceeds.
pub open spec fn first_max(s: Seq<Battery>, from: int, to: int) -> int
    decreases to - from,
{
    if to <= from + 1 {
        from
    } else {
        let best = first_max(s, from, to - 1);
        if s[to - 1].joltage > s[best].joltage {
            to - 1
        } else {
            best
        }
    }
}

/// The number that `so_far` becomes when `count` more digits are chosen
/// from `s[from..]`: each digit the first largest joltage that leaves
/// `count - 1` batteries behind it.
pub open spec fn chosen_number(s: Seq<Battery>, from: int, count: nat, so_far: int) -> int
    decreases count,
{
    if count == 0 {
        so_far
    } else {
        let pick = first_max(s, from, s.len() - count + 1);
        chosen_number(s, pick + 1, (count - 1) as nat, so_far * 10 + s[pick].joltage)
    }
}

/// The joltage of a bank with these batteries.
pub open spec fn bank_joltage(s: Seq<Battery>) -> int {
    chosen_number(s, 0, SWITCHED_ON as nat, 0)
}

/// Every joltage is a single digit.
pub open spec fn single_digits(s: Seq<Battery>) -> bool {
    forall|i: int| 0 <= i < s.len() ==> (#[trigger] s[i]).joltage <= 9
}

/// Ten to the power of `k`.
pub open spec fn pow10(k: nat) -> nat
    decreases k,
{
    if k == 0 {
        1
    } else {
        10 * pow10((k - 1) as nat)
    }
}

/// `first_max` points into the stretch, at a joltage that none in the
/// stretch exceeds and that none before it in the stretch reaches.
pub proof fn lemma_first_max(s: Seq<Battery>, from: int, to: int)
    requires
        0 <= from < to <= s.len(),
    ensures
        from <= first_max(s, from, to) < to,
        forall|i: int| from <= i < to ==> (#[trigger] s[i]).joltage <= s[first_max(s, from, to)].joltage,
        forall|i: int|
            from <= i < first_max(s, from, to) ==> (#[trigger] s[i]).joltage < s[first_max(
                s,
                from,
                to,
            )].joltage,
    decreases to - from,
{
    if to > from + 1 {
        lemma_first_max(s, from, to - 1);
    }
}

impl Bank {
    /// The batteries that the digits of a line stand for.
    pub open spec fn batteries_of(text: Seq<char>) -> Seq<Battery> {
        Seq::new(text.len(), |i: int| Battery { joltage: digit_value(text[i]) as u8 })
    }

    /// A bank from a line of digits, one battery for each digit.
    pub fn new(batteries: String) -> (bank: Self)
        requires
            all_digits(batteries@),
            batteries@.len() >= SWITCHED_ON,
        ensures
            bank.batteries@ == Self::batteries_of(batteries@),
            bank.joltage == bank_joltage(bank.batteries@),
    {
        let chars = chars_of(batteries.as_str());
        let mut made: Vec<Battery> = Vec::new();
        let mut i: usize = 0;
        while i < chars.len()
            invariant
                i <= chars@.len(),
                chars@ == batteries@,
                all_digits(batteries@),
                made@ == Self::batteries_of(batteries@).take(i as int),
            decreases chars@.len() - i,
        {
            let c = chars[i];
            assert(is_digit(chars@[i as int]));
            let d = (c as u32 - 48) as u8;
            made.push(Battery::new(d));
            assert(Self::batteries_of(batteries@).take(i + 1) =~= Self::batteries_of(
                batteries@,
            ).take(i as int).push(Battery { joltage: d }));
            i = i + 1;
        }
        assert(made@ =~= Self::batteries_of(batteries@));
        assert(single_digits(made@)) by {
            assert forall|k: int| 0 <= k < made@.len() implies (#[trigger] made@[k]).joltage <= 9 by {
                assert(is_digit(batteries@[k]));
            }
        }
        let joltage = Self::calculate_joltage(made.as_slice());
        Self { batteries: made, joltage }
    }

    /// A bank from a line, if the line holds nothing but digits and at least
    /// as many of them as batteries are switched on.
    pub fn try_new(batteries: String) -> (bank: Option<Self>)
        ensures
            bank is Some <==> all_digits(batteries@) && batteries@.len() >= SWITCHED_ON,
            bank is Some ==> bank->0.batteries@ == Self::batteries_of(batteries@)
                && bank->0.joltage == bank_joltage(bank->0.batteries@),
    {
        let chars = chars_of(batteries.as_str());
        if chars.len() < SWITCHED_ON {
            return None;
        }
        let mut i: usize = 0;
        while i < chars.len()
            invariant
                i <= chars@.len(),
                chars@ == batteries@,
                forall|k: int| 0 <= k < i ==> is_digit(#[trigger] batteries@[k]),
            decreases chars@.len() - i,
        {
            let code = chars[i] as u32;
            if code < 48 || code > 57 {
                assert(!is_digit(batteries@[i as int]));
                return None;
            }
            i = i + 1;
        }
        Some(Self::new(batteries))
    }

    /// The joltage of a bank with these batteries.
    pub fn calculate_joltage(batteries: &[Battery]) -> (joltage: u64)
        requires
            batteries@.len() >= SWITCHED_ON,
            single_digits(batteries@),
        ensures
            joltage == bank_joltage(batteries@),
    {
        let n = batteries.len();
        let mut value: u64 = 0;
        let mut from: usize = 0;
        let mut left: usize = SWITCHED_ON;
        proof {
            reveal_with_fuel(pow10, 13);
            assert(pow10(12) == 1_000_000_000_000);
        }
        while left > 0
            invariant
                n == batteries@.len(),
                single_digits(batteries@),
                left <= SWITCHED_ON,
                from + left <= n,
                value < pow10((SWITCHED_ON - left) as nat) <= pow10(12),
                pow10(12) == 1_000_000_000_000,
                chosen_number(batteries@, from as int, left as nat, value as int) == bank_joltage(
                    batteries@,
                ),
            decreases left,
        {
            let to = n - left + 1;
            let mut best: usize = from;
            let mut k: usize = from + 1;
            while k < to
                invariant
                    from < k <= to <= n,
                    n == batteries@.len(),
                    best == first_max(batteries@, from as int, k as int),
                    from <= best < k,
                decreases to - k,
            {
                if batteries[k].joltage > batteries[best].joltage {
                    best = k;
                }
                k = k + 1;
            }
            proof {
                assert(batteries@[best as int].joltage <= 9);
                let done = (SWITCHED_ON - left) as nat;
                assert(pow10(done + 1) == 10 * pow10(done));
                lemma_pow10_grows(done + 1, 12);
            }
            value = value * 10 + batteries[best].joltage as u64;
            from = best + 1;
            left = left - 1;
        }
        value
    }
}

/// `picks` are places in `s`, none before `from`, each after the one before
/// it.
pub open spec fn is_choice(s: Seq<Battery>, from: int, picks: Seq<int>) -> bool {
    &&& forall|k: int| 0 <= k < picks.len() ==> from <= #[trigger] picks[k] < s.len()
    &&& forall|k: int, l: int|
        0 <= k < l < picks.len() ==> #[trigger] picks[k] < #[trigger] picks[l]
}

/// The number that `so_far` becomes when the joltages at `picks` are
/// written behind it as digits.
pub open spec fn written(s: Seq<Battery>, picks: Seq<int>, so_far: int) -> int
    decreases picks.len(),
{
    if picks.len() == 0 {
        so_far
    } else {
        written(s, picks.skip(1), so_far * 10 + s[picks[0]].joltage)
    }
}

/// The places that the digits of `chosen_number` come from.
pub open spec fn chosen_picks(s: Seq<Battery>, from: int, count: nat) -> Seq<int>
    decreases count,
{
    if count == 0 {
        Seq::empty()
    } else {
        let pick = first_max(s, from, s.len() - count + 1);
        seq![pick] + chosen_picks(s, pick + 1, (count - 1) as nat)
    }
}

/// The chosen number is written by a choice of `count` batteries.
pub proof fn lemma_chosen_is_a_choice(s: Seq<Battery>, from: int, count: nat, so_far: int)
    requires
        0 <= from,
        from + count <= s.len(),
    ensures
        is_choice(s, from, chosen_picks(s, from, count)),
        chosen_picks(s, from, count).len() == count,
        written(s, chosen_picks(s, from, count), so_far) == chosen_number(s, from, count, so_far),
    decreases count,
{
    if count > 0 {
        let pick = first_max(s, from, s.len() - count + 1);
        lemma_first_max(s, from, s.len() - count + 1);
        let rest = chosen_picks(s, pick + 1, (count - 1) as nat);
        let all = chosen_picks(s, from, count);
        lemma_chosen_is_a_choice(s, pick + 1, (count - 1) as nat, so_far * 10 + s[pick].joltage);
        assert(all[0] == pick);
        assert(all.skip(1) =~= rest);
        assert forall|k: int| 0 <= k < all.len() implies from <= #[trigger] all[k] < s.len() by {
            if k > 0 {
                assert(all[k] == rest[k - 1]);
            }
        }
        assert forall|k: int, l: int| 0 <= k < l < all.len() implies #[trigger] all[k]
            < #[trigger] all[l] by {
            assert(all[l] == rest[l - 1]);
            if k > 0 {
                assert(all[k] == rest[k - 1]);
            }
        }
    }
}

/// What is written behind `so_far` with `picks.len()` digits lies between
/// `so_far` followed by zeros and `so_far` followed by nines.
proof fn lemma_written_bounds(s: Seq<Battery>, from: int, picks: Seq<int>, so_far: int)
    requires
        single_digits(s),
        0 <= from,
        is_choice(s, from, picks),
        0 <= so_far,
    ensures
        so_far * pow10(picks.len()) <= written(s, picks, so_far) < (so_far + 1) * pow10(
            picks.len(),
        ),
    decreases picks.len(),
{
    let m = picks.len();
    if m == 0 {
        assert(so_far * 1 == so_far && (so_far + 1) * 1 == so_far + 1);
    } else {
        let d = s[picks[0]].joltage as int;
        let rest = picks.skip(1);
        assert(0 <= d <= 9);
        assert forall|k: int| 0 <= k < rest.len() implies from <= #[trigger] rest[k] < s.len() by {
            assert(rest[k] == picks[k + 1]);
        }
        assert forall|k: int, l: int| 0 <= k < l < rest.len() implies #[trigger] rest[k]
            < #[trigger] rest[l] by {
            assert(rest[k] == picks[k + 1]);
            assert(rest[l] == picks[l + 1]);
        }
        lemma_written_bounds(s, from, rest, so_far * 10 + d);
        let p = pow10(rest.len()) as int;
        assert(pow10(m) == 10 * p);
        assert(so_far * (10 * p) <= (so_far * 10 + d) * p && (so_far * 10 + d + 1) * p <= (so_far
            + 1) * (10 * p)) by (nonlinear_arith)
            requires
                0 <= d <= 9,
                0 <= so_far,
                0 <= p,
        ;
    }
}

/// No choice of `count` batteries from `from` on writes a larger number
/// behind `so_far` than the chosen one.
pub proof fn lemma_chosen_is_largest(
    s: Seq<Battery>,
    from: int,
    count: nat,
    so_far: int,
    picks: Seq<int>,
)
    requires
        single_digits(s),
        0 <= from,
        0 <= so_far,
        from + count <= s.len(),
        is_choice(s, from, picks),
        picks.len() == count,
    ensures
        written(s, picks, so_far) <= chosen_number(s, from, count, so_far),
    decreases count,
{
    if count > 0 {
        let to = s.len() - count + 1;
        let pick = first_max(s, from, to);
        lemma_first_max(s, from, to);
        let q = picks[0];
        let rest = picks.skip(1);
        assert forall|k: int| 0 <= k < rest.len() implies q < #[trigger] rest[k] < s.len() by {
            assert(rest[k] == picks[k + 1]);
        }
        assert forall|k: int, l: int| 0 <= k < l < rest.len() implies #[trigger] rest[k]
            < #[trigger] rest[l] by {
            assert(rest[k] == picks[k + 1]);
            assert(rest[l] == picks[l + 1]);
        }
        lemma_rising(picks, count - 1);
        assert(from <= q < to);
        let mine = so_far * 10 + s[pick].joltage;
        let theirs = so_far * 10 + s[q].joltage;
        assert(s[q].joltage <= s[pick].joltage);
        assert(s[pick].joltage <= 9);
        if s[q].joltage == s[pick].joltage {
            assert(pick <= q);
            assert(is_choice(s, pick + 1, rest));
            lemma_chosen_is_largest(s, pick + 1, (count - 1) as nat, mine, rest);
        } else {
            assert(is_choice(s, from, rest));
            lemma_written_bounds(s, from, rest, theirs);
            lemma_chosen_is_a_choice(s, pick + 1, (count - 1) as nat, mine);
            lemma_written_bounds(s, pick + 1, chosen_picks(s, pick + 1, (count - 1) as nat), mine);
            let p = pow10((count - 1) as nat) as int;
            assert((theirs + 1) * p <= mine * p) by (nonlinear_arith)
                requires
                    theirs + 1 <= mine,
                    0 <= p,
            ;
        }
    }
}

/// The `k`-th of rising places lies at least `k` places behind the first.
proof fn lemma_rising(picks: Seq<int>, k: int)
    requires
        0 <= k < picks.len(),
        forall|a: int, b: int|
            0 <= a < b < picks.len() ==> #[trigger] picks[a] < #[trigger] picks[b],
    ensures
        picks[0] + k <= picks[k],
    decreases k,
{
    if k > 0 {
        lemma_rising(picks, k - 1);
        assert(picks[k - 1] < picks[k]);
    }
}

/// The joltage of a bank is the largest number that twelve of its batteries
/// write in their order.
pub proof fn lemma_bank_joltage_is_largest(s: Seq<Battery>, picks: Seq<int>)
    requires
        single_digits(s),
        s.len() >= SWITCHED_ON,
        is_choice(s, 0, picks),
        picks.len() == SWITCHED_ON,
    ensures
        written(s, picks, 0) <= bank_joltage(s),
        written(s, chosen_picks(s, 0, SWITCHED_ON as nat), 0) == bank_joltage(s),
        is_choice(s, 0, chosen_picks(s, 0, SWITCHED_ON as nat)),
{
    lemma_chosen_is_largest(s, 0, SWITCHED_ON as nat, 0, picks);
    lemma_chosen_is_a_choice(s, 0, SWITCHED_ON as nat, 0);
}

/// The line is a bank: nothing but digits, and at least as many of them as
/// batteries are switched on.
pub open spec fn is_bank(line: Seq<char>) -> bool {
    all_digits(line) && line.len() >= SWITCHED_ON
}

/// The sum of the joltages of the banks in the first `k` lines.
pub open spec fn joltage_sum(lines: Seq<Seq<char>>, k: int) -> nat
    decreases k,
{
    if k <= 0 {
        0
    } else {
        joltage_sum(lines, k - 1) + bank_joltage(Bank::batteries_of(lines[k - 1])) as nat
    }
}

/// Every line is a bank.
pub open spec fn all_lines_are_banks(text: Seq<char>) -> bool {
    forall|i: int| 0 <= i < lines_of(text).len() ==> is_bank(#[trigger] lines_of(text)[i])
}

proof fn lemma_joltage_sum_grows(lines: Seq<Seq<char>>, k: int, n: int)
    requires
        0 <= k <= n,
    ensures
        joltage_sum(lines, k) <= joltage_sum(lines, n),
    decreases n - k,
{
    if k < n {
        lemma_joltage_sum_grows(lines, k, n - 1);
    }
}

/// The joltage of the bank that a line holds, if the line is a bank.
pub fn line_joltage(line: &Vec<char>) -> (joltage: Option<u64>)
    ensures
        joltage is Some <==> is_bank(line@),
        joltage is Some ==> joltage->0 == bank_joltage(Bank::batteries_of(line@)),
{
    if line.len() < SWITCHED_ON {
        return None;
    }
    let mut batteries: Vec<Battery> = Vec::new();
    let mut i: usize = 0;
    while i < line.len()
        invariant
            i <= line@.len(),
            forall|k: int| 0 <= k < i ==> is_digit(#[trigger] line@[k]),
            batteries@ == Bank::batteries_of(line@).take(i as int),
        decreases line@.len() - i,
    {
        let code = line[i] as u32;
        if code < 48 || code > 57 {
            assert(!is_digit(line@[i as int]));
            return None;
        }
        batteries.push(Battery::new((code - 48) as u8));
        assert(Bank::batteries_of(line@).take(i + 1) =~= Bank::batteries_of(line@).take(
            i as int,
        ).push(Battery { joltage: (code - 48) as u8 }));
        i = i + 1;
    }
    assert(batteries@ =~= Bank::batteries_of(line@));
    assert(single_digits(batteries@)) by {
        assert forall|k: int| 0 <= k < batteries@.len() implies (#[trigger] batteries@[k]).joltage
            <= 9 by {
            assert(is_digit(line@[k]));
        }
    }
    Some(Bank::calculate_joltage(batteries.as_slice()))
}

/// The sum of the joltages of the banks of the text, a bank in each line:
/// no sum where a line is no bank or the sum does not fit in 64 bits.
pub fn joltage_total(input: &str) -> (total: Option<u64>)
    ensures
        total is Some <==> all_lines_are_banks(input@) && joltage_sum(
            lines_of(input@),
            lines_of(input@).len() as int,
        ) <= u64::MAX,
        total is Some ==> total->0 == joltage_sum(lines_of(input@), lines_of(input@).len() as int),
{
    let chars = chars_of(input);
    let rows = lines(&chars);
    let ghost text = lines_of(input@);
    let mut total: u64 = 0;
    let mut i: usize = 0;
    while i < rows.len()
        invariant
            i <= rows@.len(),
            text == lines_of(input@),
            pieces_of(rows@) == text,
            forall|k: int| 0 <= k < i ==> is_bank(#[trigger] text[k]),
            total == joltage_sum(text, i as int),
        decreases rows@.len() - i,
    {
        proof {
            assert(pieces_of(rows@)[i as int] == rows@[i as int]@);
            lemma_joltage_sum_grows(text, i + 1, text.len() as int);
        }
        let joltage = match line_joltage(&rows[i]) {
            Some(joltage) => joltage,
            None => {
                return None;
            },
        };
        total = match total.checked_add(joltage) {
            Some(total) => total,
            None => {
                return None;
            },
        };
        i = i + 1;
    }
    Some(total)
}

/// Larger powers of ten are larger.
pub proof fn lemma_pow10_grows(small: nat, large: nat)
    requires
        small <= large,
    ensures
        pow10(small) <= pow10(large),
    decreases large,
{
    if small < large {
        lemma_pow10_grows(small, (large - 1) as nat);
    }
}

} // verus!
