//! Reading text: characters, fields between separators, lines, and
//! unsigned decimal numbers.

use vstd::prelude::*;

verus! {

/// The characters of `s`, in order.
pub fn chars_of(s: &str) -> (chars: Vec<char>)
    ensures
        chars@ == s@,
{
    let mut chars: Vec<char> = Vec::new();
    let n = s.unicode_len();
    let mut i: usize = 0;
    while i < n
        invariant
            i <= n,
            n == s@.len(),
            chars@ == s@.take(i as int),
        decreases n - i,
    {
        chars.push(s.get_char(i));
        assert(s@.take(i + 1) =~= s@.take(i as int).push(s@[i as int]));
        i = i + 1;
    }
    assert(s@.take(n as int) =~= s@);
    chars
}

/// `c` is one of the ten decimal digits.
pub open spec fn is_digit(c: char) -> bool {
    48 <= c as u32 <= 57
}

/// The value of the decimal digit `c`.
pub open spec fn digit_value(c: char) -> int {
    c as u32 - 48
}

/// Every character of `s` is a decimal digit.
pub open spec fn all_digits(s: Seq<char>) -> bool {
    forall|i: int| 0 <= i < s.len() ==> is_digit(#[trigger] s[i])
}

/// The number that the digits `s` write in base ten.
pub open spec fn digits_value(s: Seq<char>) -> int
    decreases s.len(),
{
    if s.len() == 0 {
        0
    } else {
        digits_value(s.drop_last()) * 10 + digit_value(s.last())
    }
}

/// `s` without the plus sign that may stand in front of a number.
pub open spec fn unsigned_digits(s: Seq<char>) -> Seq<char> {
    if s.len() > 0 && s[0] == '+' {
        s.skip(1)
    } else {
        s
    }
}

/// `s` writes an unsigned number that is at most `max`: an optional plus
/// sign, then one or more decimal digits and nothing else.
pub open spec fn is_unsigned(s: Seq<char>, max: int) -> bool {
    let digits = unsigned_digits(s);
    digits.len() > 0 && all_digits(digits) && digits_value(digits) <= max
}

/// The number that `s` writes.
pub open spec fn unsigned_value(s: Seq<char>) -> int {
    digits_value(unsigned_digits(s))
}

/// A number written with more digits is at least the number written with
/// the first of them.
pub proof fn lemma_digits_value_grows(s: Seq<char>, k: int)
    requires
        all_digits(s),
        0 <= k <= s.len(),
    ensures
        0 <= digits_value(s.take(k)) <= digits_value(s),
    decreases s.len() - k,
{
    if k == s.len() {
        assert(s.take(k) =~= s);
        lemma_digits_value_nonnegative(s);
    } else {
        lemma_digits_value_grows(s, k + 1);
        let longer = s.take(k + 1);
        assert(longer.drop_last() =~= s.take(k));
        assert(is_digit(s[k]));
        assert(longer.last() == s[k]);
        assert(all_digits(s.take(k))) by {
            assert forall|i: int| 0 <= i < s.take(k).len() implies is_digit(
                #[trigger] s.take(k)[i],
            ) by {
                assert(s.take(k)[i] == s[i]);
            }
        }
        lemma_digits_value_nonnegative(s.take(k));
    }
}

/// Digits write no negative number.
pub proof fn lemma_digits_value_nonnegative(s: Seq<char>)
    requires
        all_digits(s),
    ensures
        0 <= digits_value(s),
    decreases s.len(),
{
    if s.len() > 0 {
        assert(is_digit(s[s.len() - 1]));
        assert forall|i: int| 0 <= i < s.drop_last().len() implies is_digit(
            #[trigger] s.drop_last()[i],
        ) by {
            assert(s.drop_last()[i] == s[i]);
        }
        lemma_digits_value_nonnegative(s.drop_last());
    }
}

/// Reads `s[from..to]` as an unsigned decimal number that is at most `max`.
pub fn parse_unsigned(s: &Vec<char>, from: usize, to: usize, max: u64) -> (number: Option<u64>)
    requires
        from <= to <= s@.len(),
    ensures
        number is Some <==> is_unsigned(s@.subrange(from as int, to as int), max as int),
        number is Some ==> number->0 == unsigned_value(s@.subrange(from as int, to as int)),
{
    let ghost text = s@.subrange(from as int, to as int);
    let start: usize = if from < to && s[from] == '+' {
        from + 1
    } else {
        from
    };
    let ghost digits = s@.subrange(start as int, to as int);
    assert(digits =~= unsigned_digits(text));
    if start == to {
        return None;
    }
    let mut value: u64 = 0;
    let mut i: usize = start;
    while i < to
        invariant
            from <= start <= i <= to <= s@.len(),
            digits == s@.subrange(start as int, to as int),
            digits == unsigned_digits(s@.subrange(from as int, to as int)),
            all_digits(digits.take(i - start)),
            value == digits_value(digits.take(i - start)),
            value <= max,
        decreases to - i,
    {
        let c = s[i];
        let ghost seen = digits.take(i - start);
        let ghost more = digits.take(i - start + 1);
        proof {
            assert(more.drop_last() =~= seen);
            assert(more.last() == c);
        }
        let code = c as u32;
        if code < 48 || code > 57 {
            proof {
                assert(!is_digit(digits[i - start]));
            }
            return None;
        }
        let d = (code - 48) as u64;
        proof {
            assert forall|k: int| 0 <= k < more.len() implies is_digit(#[trigger] more[k]) by {
                if k < seen.len() {
                    assert(more[k] == seen[k]);
                }
            }
        }
        if d > max || value > (max - d) / 10 {
            proof {
                assert(digits_value(more) > max);
                if all_digits(digits) {
                    lemma_digits_value_grows(digits, i - start + 1);
                }
            }
            return None;
        }
        value = value * 10 + d;
        i = i + 1;
    }
    assert(digits.take(to - start) =~= digits);
    Some(value)
}

/// The pieces of `s` between the occurrences of `sep`: one more piece than
/// there are separators, empty pieces included.
pub open spec fn split_on(s: Seq<char>, sep: char) -> Seq<Seq<char>>
    decreases s.len(),
{
    if s.len() == 0 {
        seq![Seq::empty()]
    } else {
        let before = split_on(s.drop_last(), sep);
        if s.last() == sep {
            before.push(Seq::empty())
        } else {
            before.drop_last().push(before.last().push(s.last()))
        }
    }
}

/// There is always at least one piece.
pub proof fn lemma_split_on_is_not_empty(s: Seq<char>, sep: char)
    ensures
        split_on(s, sep).len() >= 1,
    decreases s.len(),
{
    if s.len() > 0 {
        lemma_split_on_is_not_empty(s.drop_last(), sep);
    }
}

/// The views of the pieces.
pub open spec fn pieces_of(v: Seq<Vec<char>>) -> Seq<Seq<char>> {
    Seq::new(v.len(), |i: int| v[i]@)
}

/// Splits `s` at every `sep`.
pub fn split(s: &Vec<char>, sep: char) -> (pieces: Vec<Vec<char>>)
    ensures
        pieces_of(pieces@) == split_on(s@, sep),
        pieces@.len() >= 1,
{
    let mut done: Vec<Vec<char>> = Vec::new();
    let mut current: Vec<char> = Vec::new();
    let mut i: usize = 0;
    assert(s@.take(0) =~= Seq::<char>::empty());
    assert(pieces_of(done@).push(current@) =~= split_on(s@.take(0), sep));
    while i < s.len()
        invariant
            i <= s@.len(),
            pieces_of(done@).push(current@) == split_on(s@.take(i as int), sep),
        decreases s@.len() - i,
    {
        let c = s[i];
        let ghost before = split_on(s@.take(i as int), sep);
        proof {
            assert(s@.take(i + 1).drop_last() =~= s@.take(i as int));
            assert(s@.take(i + 1).last() == c);
            assert(before.last() == current@);
            assert(before.drop_last() =~= pieces_of(done@));
        }
        if c == sep {
            let ghost finished = current@;
            done.push(current);
            current = Vec::new();
            proof {
                assert(pieces_of(done@) =~= before);
                assert(pieces_of(done@).push(current@) =~= before.push(Seq::empty()));
            }
        } else {
            current.push(c);
        }
        i = i + 1;
    }
    assert(s@.take(s@.len() as int) =~= s@);
    let ghost all = pieces_of(done@).push(current@);
    done.push(current);
    assert(pieces_of(done@) =~= all);
    done
}

/// The two numbers that `s` writes with `sep` between them: the first two of
/// the pieces between the separators, each an unsigned number of at most
/// `max`. Pieces after the second count for nothing.
pub open spec fn written_pair(s: Seq<char>, sep: char, max: u64) -> Option<(u64, u64)> {
    let pieces = split_on(s, sep);
    if pieces.len() >= 2 && is_unsigned(pieces[0], max as int) && is_unsigned(
        pieces[1],
        max as int,
    ) {
        Some((unsigned_value(pieces[0]) as u64, unsigned_value(pieces[1]) as u64))
    } else {
        None
    }
}

/// Reads two unsigned numbers with `sep` between them.
pub fn parse_pair(s: &Vec<char>, sep: char, max: u64) -> (pair: Option<(u64, u64)>)
    ensures
        pair == written_pair(s@, sep, max),
{
    let pieces = split(s, sep);
    if pieces.len() < 2 {
        return None;
    }
    proof {
        assert(pieces_of(pieces@)[0] == pieces@[0]@);
        assert(pieces_of(pieces@)[1] == pieces@[1]@);
        assert(pieces@[0]@.subrange(0, pieces@[0]@.len() as int) =~= pieces@[0]@);
        assert(pieces@[1]@.subrange(0, pieces@[1]@.len() as int) =~= pieces@[1]@);
    }
    let first = parse_unsigned(&pieces[0], 0, pieces[0].len(), max);
    let second = parse_unsigned(&pieces[1], 0, pieces[1].len(), max);
    match (first, second) {
        (Some(a), Some(b)) => Some((a, b)),
        _ => None,
    }
}

/// `c` is white space: a space, a tab, a line feed, a carriage return or
/// one of the other characters that Unicode counts as white space.
pub open spec fn is_space(c: char) -> bool {
    let u = c as u32;
    (9 <= u <= 13) || u == 32 || u == 0x85 || u == 0xa0 || u == 0x1680 || (0x2000 <= u <= 0x200a)
        || u == 0x2028 || u == 0x2029 || u == 0x202f || u == 0x205f || u == 0x3000
}

/// Whether `c` is white space.
pub fn is_space_char(c: char) -> (space: bool)
    ensures
        space == is_space(c),
{
    let u = c as u32;
    (9 <= u && u <= 13) || u == 32 || u == 0x85 || u == 0xa0 || u == 0x1680 || (0x2000 <= u && u
        <= 0x200a) || u == 0x2028 || u == 0x2029 || u == 0x202f || u == 0x205f || u == 0x3000
}

/// The words of `s`: the longest stretches without white space, in their
/// order.
pub open spec fn words_of(s: Seq<char>) -> Seq<Seq<char>>
    decreases s.len(),
{
    if s.len() == 0 {
        Seq::empty()
    } else {
        let before = words_of(s.drop_last());
        if is_space(s.last()) {
            before
        } else if s.len() >= 2 && !is_space(s[s.len() - 2]) {
            before.drop_last().push(before.last().push(s.last()))
        } else {
            before.push(seq![s.last()])
        }
    }
}

/// A word has at least one character, and where the text ends in a word,
/// there is a last word.
pub proof fn lemma_words_are_not_empty(s: Seq<char>)
    ensures
        forall|i: int| 0 <= i < words_of(s).len() ==> (#[trigger] words_of(s)[i]).len() >= 1,
        s.len() > 0 && !is_space(s.last()) ==> words_of(s).len() >= 1,
    decreases s.len(),
{
    if s.len() > 0 {
        lemma_words_are_not_empty(s.drop_last());
        let before = words_of(s.drop_last());
        if !is_space(s.last()) && s.len() >= 2 && !is_space(s[s.len() - 2]) {
            assert(s.drop_last().last() == s[s.len() - 2]);
        }
    }
}

/// Splits `s` into its words.
pub fn words(s: &Vec<char>) -> (found: Vec<Vec<char>>)
    ensures
        pieces_of(found@) == words_of(s@),
{
    let mut done: Vec<Vec<char>> = Vec::new();
    let mut current: Vec<char> = Vec::new();
    let mut i: usize = 0;
    assert(s@.take(0) =~= Seq::<char>::empty());
    assert(pieces_of(done@) =~= words_of(s@.take(0)));
    while i < s.len()
        invariant
            i <= s@.len(),
            current@.len() > 0 <==> i > 0 && !is_space(s@[i - 1]),
            current@.len() > 0 ==> pieces_of(done@).push(current@) == words_of(s@.take(i as int)),
            current@.len() == 0 ==> pieces_of(done@) == words_of(s@.take(i as int)),
        decreases s@.len() - i,
    {
        let c = s[i];
        let ghost before = words_of(s@.take(i as int));
        proof {
            assert(s@.take(i + 1).drop_last() =~= s@.take(i as int));
            assert(s@.take(i + 1).last() == c);
            if i > 0 {
                assert(s@.take(i + 1)[i - 1] == s@[i - 1]);
            }
        }
        if is_space_char(c) {
            if current.len() > 0 {
                done.push(current);
                current = Vec::new();
                assert(pieces_of(done@) =~= before);
            }
        } else {
            proof {
                if current@.len() > 0 {
                    assert(before.last() == current@);
                    assert(before.drop_last() =~= pieces_of(done@));
                }
            }
            current.push(c);
            proof {
                if current@.len() == 1 {
                    assert(current@ =~= seq![c]);
                }
            }
        }
        i = i + 1;
    }
    assert(s@.take(s@.len() as int) =~= s@);
    if current.len() > 0 {
        let ghost all = pieces_of(done@).push(current@);
        done.push(current);
        assert(pieces_of(done@) =~= all);
    }
    done
}

/// `s` without the white space at its end.
pub open spec fn trimmed_end(s: Seq<char>) -> Seq<char>
    decreases s.len(),
{
    if s.len() > 0 && is_space(s.last()) {
        trimmed_end(s.drop_last())
    } else {
        s
    }
}

/// Where `s` without the white space at its end ends.
pub fn trim_end(s: &Vec<char>) -> (end: usize)
    ensures
        end <= s@.len(),
        s@.take(end as int) == trimmed_end(s@),
{
    let mut end: usize = s.len();
    assert(s@.take(end as int) =~= s@);
    while end > 0 && is_space_char(s[end - 1])
        invariant
            end <= s@.len(),
            trimmed_end(s@.take(end as int)) == trimmed_end(s@),
        decreases end,
    {
        assert(s@.take(end as int).drop_last() =~= s@.take(end - 1));
        end = end - 1;
    }
    proof {
        if end > 0 {
            assert(s@.take(end as int).last() == s@[end - 1]);
        }
    }
    end
}

/// `s` without the white space at its start.
pub open spec fn trimmed_start(s: Seq<char>) -> Seq<char>
    decreases s.len(),
{
    if s.len() > 0 && is_space(s[0]) {
        trimmed_start(s.skip(1))
    } else {
        s
    }
}

/// `s` without the white space at its two ends.
pub open spec fn trimmed(s: Seq<char>) -> Seq<char> {
    trimmed_end(trimmed_start(s))
}

/// Where `s` without the white space at its two ends starts and ends in
/// `s`.
pub fn trim(s: &Vec<char>) -> (ends: (usize, usize))
    ensures
        ends.0 <= ends.1 <= s@.len(),
        s@.subrange(ends.0 as int, ends.1 as int) == trimmed(s@),
{
    let mut from: usize = 0;
    assert(s@.skip(0) =~= s@);
    while from < s.len() && is_space_char(s[from])
        invariant
            from <= s@.len(),
            trimmed_start(s@.skip(from as int)) == trimmed_start(s@),
        decreases s@.len() - from,
    {
        assert(s@.skip(from as int).skip(1) =~= s@.skip(from + 1));
        from = from + 1;
    }
    let mut to: usize = s.len();
    proof {
        if from < s@.len() {
            assert(s@.skip(from as int)[0] == s@[from as int]);
        }
        assert(trimmed_start(s@) == s@.skip(from as int));
        assert(s@.subrange(from as int, to as int) =~= s@.skip(from as int));
    }
    while to > from && is_space_char(s[to - 1])
        invariant
            from <= to <= s@.len(),
            trimmed_end(s@.subrange(from as int, to as int)) == trimmed(s@),
        decreases to,
    {
        assert(s@.subrange(from as int, to as int).drop_last() =~= s@.subrange(
            from as int,
            to - 1,
        ));
        to = to - 1;
    }
    proof {
        if to > from {
            assert(s@.subrange(from as int, to as int).last() == s@[to - 1]);
        }
    }
    (from, to)
}

/// `line` without the carriage return that may end it.
pub open spec fn without_return(line: Seq<char>) -> Seq<char> {
    if line.len() > 0 && line.last() == '\r' {
        line.drop_last()
    } else {
        line
    }
}

/// The lines of `s`. A line ends at a line feed, or at the end of the text
/// where characters are left after the last line feed. The line feed is not
/// part of the line, nor is a carriage return right in front of it.
pub open spec fn lines_of(s: Seq<char>) -> Seq<Seq<char>> {
    let pieces = split_on(s, '\n');
    let ended = Seq::new((pieces.len() - 1) as nat, |i: int| without_return(pieces[i]));
    if pieces.last().len() == 0 {
        ended
    } else {
        ended.push(pieces.last())
    }
}

/// Splits `s` into its lines.
pub fn lines(s: &Vec<char>) -> (found: Vec<Vec<char>>)
    ensures
        pieces_of(found@) == lines_of(s@),
{
    let mut pieces = split(s, '\n');
    let ghost all = pieces_of(pieces@);
    let last = pieces.pop().unwrap();
    let mut found: Vec<Vec<char>> = Vec::new();
    let mut i: usize = 0;
    while i < pieces.len()
        invariant
            i <= pieces@.len(),
            pieces@.len() == all.len() - 1,
            forall|k: int| 0 <= k < pieces@.len() ==> (#[trigger] pieces@[k])@ == all[k],
            found@.len() == i,
            forall|k: int| 0 <= k < i ==> (#[trigger] found@[k])@ == without_return(all[k]),
        decreases pieces@.len() - i,
    {
        let mut line = pieces[i].clone();
        let n = line.len();
        if n > 0 && line[n - 1] == '\r' {
            line.pop();
            assert(line@ =~= without_return(all[i as int]));
        }
        found.push(line);
        i = i + 1;
    }
    if last.len() > 0 {
        found.push(last);
    }
    assert(pieces_of(found@) =~= lines_of(s@));
    found
}

} // verus!
