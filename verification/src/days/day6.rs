//! Columns of numbers, each with the operation that folds it into one number.

use crate::text::{
    chars_of, is_unsigned, lemma_words_are_not_empty, lines, lines_of, parse_unsigned, pieces_of,
    trim, trimmed, unsigned_value, without_return, words, words_of,
};
use vstd::prelude::*;

verus! {

/// What is done with the numbers of a column.
#[derive(Debug, PartialEq, Eq, Clone, Copy, Structural)]
pub enum Operation {
    Add,
    Multiply,
    Divide,
    Subtract,
}

impl Operation {
    /// The operation that a sign stands for.
    pub open spec fn of_sign(c: char) -> Option<Operation> {
        if c == '+' {
            Some(Operation::Add)
        } else if c == '-' {
            Some(Operation::Subtract)
        } else if c == '*' {
            Some(Operation::Multiply)
        } else if c == '/' {
            Some(Operation::Divide)
        } else {
            None
        }
    }

    /// The operation that a sign stands for, if it stands for one.
    pub fn from_char(c: &char) -> (op: Option<Self>)
        ensures
            op == Self::of_sign(*c),
    {
        let c = *c;
        if c == '+' {
            Some(Self::Add)
        } else if c == '-' {
            Some(Self::Subtract)
        } else if c == '*' {
            Some(Self::Multiply)
        } else if c == '/' {
            Some(Self::Divide)
        } else {
            None
        }
    }

    /// The operation has a result in 64 bits: the sum or product fits, the
    /// difference is not negative, the divisor is not zero.
    pub open spec fn defined_on(self, a: u64, b: u64) -> bool {
        match self {
            Operation::Add => a + b <= u64::MAX,
            Operation::Subtract => a >= b,
            Operation::Divide => b != 0,
            Operation::Multiply => a * b <= u64::MAX,
        }
    }

    /// The result of the operation on `a` and `b`; division drops the
    /// remainder.
    pub open spec fn applied(self, a: u64, b: u64) -> int {
        match self {
            Operation::Add => a + b,
            Operation::Subtract => a - b,
            Operation::Divide => a as int / b as int,
            Operation::Multiply => a * b,
        }
    }

    /// The number that a fold starts from: one for a product, zero otherwise.
    pub open spec fn start(self) -> u64 {
        if self == Operation::Multiply {
            1
        } else {
            0
        }
    }

    /// The result of the operation, if it has one in 64 bits.
    pub fn try_operate(&self, a: &u64, b: &u64) -> (result: Option<u64>)
        ensures
            result is Some <==> self.defined_on(*a, *b),
            result is Some ==> result->0 == self.applied(*a, *b),
    {
        match self {
            Self::Add => a.checked_add(*b),
            Self::Subtract => a.checked_sub(*b),
            Self::Divide => a.checked_div(*b),
            Self::Multiply => a.checked_mul(*b),
        }
    }

    /// The result of the operation on `a` and `b`.
    pub fn operate(&self, a: &u64, b: &u64) -> (result: u64)
        requires
            self.defined_on(*a, *b),
        ensures
            result == self.applied(*a, *b),
    {
        match self {
            Self::Add => *a + *b,
            Self::Subtract => *a - *b,
            Self::Divide => *a / *b,
            Self::Multiply => *a * *b,
        }
    }
}

/// The numbers of a column and the operation between them.
#[derive(Debug, PartialEq)]
pub struct Column {
    pub nums: Vec<u64>,
    pub operation: Operation,
}

/// The numbers folded from the left, starting from the operation's start.
pub open spec fn folded(op: Operation, nums: Seq<u64>) -> int
    decreases nums.len(),
{
    if nums.len() == 0 {
        op.start() as int
    } else {
        op.applied(folded(op, nums.drop_last()) as u64, nums.last())
    }
}

/// Every step of the fold has a result in 64 bits.
pub open spec fn foldable(op: Operation, nums: Seq<u64>) -> bool
    decreases nums.len(),
{
    if nums.len() == 0 {
        true
    } else {
        foldable(op, nums.drop_last()) && op.defined_on(
            folded(op, nums.drop_last()) as u64,
            nums.last(),
        )
    }
}

impl Column {
    /// The column of these numbers and this operation.
    pub fn new(nums: Vec<u64>, operation: Operation) -> (column: Self)
        ensures
            column.nums == nums,
            column.operation == operation,
    {
        Self { nums, operation }
    }

    /// Folds the column's numbers with its operation, from the first to the
    /// last, if every step of the fold has a result in 64 bits.
    pub fn try_score(&self) -> (s: Option<u64>)
        ensures
            s is Some <==> foldable(self.operation, self.nums@),
            s is Some ==> s->0 == folded(self.operation, self.nums@),
    {
        let mut s: u64 = match self.operation {
            Operation::Multiply => 1,
            _ => 0,
        };
        let mut i: usize = 0;
        assert(self.nums@.take(0) =~= Seq::<u64>::empty());
        while i < self.nums.len()
            invariant
                i <= self.nums@.len(),
                foldable(self.operation, self.nums@.take(i as int)),
                s == folded(self.operation, self.nums@.take(i as int)),
            decreases self.nums@.len() - i,
        {
            proof {
                assert(self.nums@.take(i + 1).drop_last() =~= self.nums@.take(i as int));
                assert(self.nums@.take(i + 1).last() == self.nums@[i as int]);
                if foldable(self.operation, self.nums@) {
                    lemma_foldable_prefix(self.operation, self.nums@, i + 1);
                }
            }
            match self.operation.try_operate(&s, &self.nums[i]) {
                Some(next) => {
                    s = next;
                },
                None => {
                    return None;
                },
            }
            i = i + 1;
        }
        assert(self.nums@.take(self.nums@.len() as int) =~= self.nums@);
        Some(s)
    }

    /// Folds the column's numbers with its operation, from the first to the
    /// last.
    pub fn score(&self) -> (s: u64)
        requires
            foldable(self.operation, self.nums@),
        ensures
            s == folded(self.operation, self.nums@),
    {
        let mut s: u64 = match self.operation {
            Operation::Multiply => 1,
            _ => 0,
        };
        let mut i: usize = 0;
        assert(self.nums@.take(0) =~= Seq::<u64>::empty());
        while i < self.nums.len()
            invariant
                i <= self.nums@.len(),
                foldable(self.operation, self.nums@),
                foldable(self.operation, self.nums@.take(i as int)),
                s == folded(self.operation, self.nums@.take(i as int)),
            decreases self.nums@.len() - i,
        {
            proof {
                assert(self.nums@.take(i + 1).drop_last() =~= self.nums@.take(i as int));
                assert(self.nums@.take(i + 1).last() == self.nums@[i as int]);
                lemma_foldable_prefix(self.operation, self.nums@, i + 1);
            }
            s = self.operation.operate(&s, &self.nums[i]);
            i = i + 1;
        }
        assert(self.nums@.take(self.nums@.len() as int) =~= self.nums@);
        s
    }
}

/// The operations that the words of a line name, each word by its first
/// character, if every word names one.
pub open spec fn operations_in(line: Seq<char>) -> Option<Seq<Operation>> {
    let w = words_of(line);
    if forall|i: int| 0 <= i < w.len() ==> Operation::of_sign((#[trigger] w[i])[0]) is Some {
        Some(Seq::new(w.len(), |i: int| Operation::of_sign(w[i][0])->0))
    } else {
        None
    }
}

/// The numbers that the words of a line write, if every word is an unsigned
/// number of 64 bits.
pub open spec fn numbers_in(line: Seq<char>) -> Option<Seq<u64>> {
    let w = words_of(line);
    if forall|i: int| 0 <= i < w.len() ==> is_unsigned(#[trigger] w[i], u64::MAX as int) {
        Some(Seq::new(w.len(), |i: int| unsigned_value(w[i]) as u64))
    } else {
        None
    }
}

/// Reads the operations that the words of a line name.
pub fn read_operations(line: &Vec<char>) -> (operations: Option<Vec<Operation>>)
    ensures
        operations is Some <==> operations_in(line@) is Some,
        operations is Some ==> operations->0@ == operations_in(line@)->0,
{
    let found = words(line);
    proof {
        lemma_words_are_not_empty(line@);
    }
    let mut operations: Vec<Operation> = Vec::new();
    let mut i: usize = 0;
    while i < found.len()
        invariant
            i <= found@.len(),
            pieces_of(found@) == words_of(line@),
            forall|k: int| 0 <= k < words_of(line@).len() ==> (#[trigger] words_of(line@)[k]).len() >= 1,
            operations@.len() == i,
            forall|k: int| 0 <= k < i ==> Operation::of_sign((#[trigger] words_of(line@)[k])[0]) is Some,
            forall|k: int|
                0 <= k < i ==> #[trigger] operations@[k] == Operation::of_sign(
                    words_of(line@)[k][0],
                )->0,
        decreases found@.len() - i,
    {
        proof {
            assert(pieces_of(found@)[i as int] == found@[i as int]@);
            assert(words_of(line@)[i as int].len() >= 1);
        }
        match Operation::from_char(&found[i][0]) {
            Some(op) => {
                operations.push(op);
            },
            None => {
                return None;
            },
        }
        i = i + 1;
    }
    assert(operations@ =~= operations_in(line@)->0);
    Some(operations)
}

/// Reads the numbers that the words of a line write.
pub fn read_numbers(line: &Vec<char>) -> (numbers: Option<Vec<u64>>)
    ensures
        numbers is Some <==> numbers_in(line@) is Some,
        numbers is Some ==> numbers->0@ == numbers_in(line@)->0,
{
    let found = words(line);
    let mut numbers: Vec<u64> = Vec::new();
    let mut i: usize = 0;
    while i < found.len()
        invariant
            i <= found@.len(),
            pieces_of(found@) == words_of(line@),
            numbers@.len() == i,
            forall|k: int| 0 <= k < i ==> is_unsigned(#[trigger] words_of(line@)[k], u64::MAX as int),
            forall|k: int|
                0 <= k < i ==> #[trigger] numbers@[k] == unsigned_value(words_of(line@)[k]) as u64,
        decreases found@.len() - i,
    {
        proof {
            assert(pieces_of(found@)[i as int] == found@[i as int]@);
            assert(found@[i as int]@.subrange(0, found@[i as int]@.len() as int)
                =~= found@[i as int]@);
        }
        match parse_unsigned(&found[i], 0, found[i].len(), 0xffff_ffff_ffff_ffff) {
            Some(number) => {
                numbers.push(number);
            },
            None => {
                return None;
            },
        }
        i = i + 1;
    }
    assert(numbers@ =~= numbers_in(line@)->0);
    Some(numbers)
}

/// The rows of numbers of a worksheet, the lowest row first: every line but
/// the last is a row.
pub open spec fn sheet_rows(lines: Seq<Seq<char>>) -> Seq<Seq<u64>> {
    Seq::new((lines.len() - 1) as nat, |k: int| numbers_in(lines[lines.len() - 2 - k])->0)
}

/// Every line but the last is a row of numbers.
pub open spec fn rows_are_numbers(lines: Seq<Seq<char>>) -> bool {
    forall|k: int| 0 <= k < lines.len() - 1 ==> numbers_in(#[trigger] lines[k]) is Some
}

/// Column `c` of the rows: from each row its number at place `c`.
pub open spec fn column_of(rows: Seq<Seq<u64>>, c: int) -> Seq<u64> {
    Seq::new(rows.len(), |k: int| rows[k][c])
}

/// No row is shorter than `width`.
pub open spec fn rows_reach(rows: Seq<Seq<u64>>, width: int) -> bool {
    forall|k: int| 0 <= k < rows.len() ==> (#[trigger] rows[k]).len() >= width
}

/// The sum of the first `upto` columns, each folded with its operation:
/// none where a fold breaks or the sum does not fit in 64 bits.
pub open spec fn columns_total(rows: Seq<Seq<u64>>, operations: Seq<Operation>, upto: int) -> Option<
    u64,
>
    decreases upto,
{
    if upto <= 0 {
        Some(0u64)
    } else {
        let column = column_of(rows, upto - 1);
        let op = operations[upto - 1];
        match columns_total(rows, operations, upto - 1) {
            Some(before) => if foldable(op, column) && before + folded(op, column) <= u64::MAX {
                Some((before + folded(op, column)) as u64)
            } else {
                None
            },
            None => None,
        }
    }
}

/// The total of a worksheet. Its last line names the operations, the lines
/// before it are rows of numbers. The numbers that stand at one place in
/// their rows are a column, folded from the lowest row up with the operation
/// at that place; the total is the sum of the columns that have an
/// operation. There is no total where there is no row, a word is no number
/// or no operation, a row is shorter than the first, a fold breaks or the
/// sum does not fit in 64 bits.
pub open spec fn sheet_total(lines: Seq<Seq<char>>) -> Option<u64> {
    if lines.len() >= 2 && operations_in(lines.last()) is Some && rows_are_numbers(lines) {
        let operations = operations_in(lines.last())->0;
        let rows = sheet_rows(lines);
        let width = rows[0].len() as int;
        if rows_reach(rows, width) {
            columns_total(
                rows,
                operations,
                if width <= operations.len() {
                    width
                } else {
                    operations.len() as int
                },
            )
        } else {
            None
        }
    } else {
        None
    }
}

/// The views of the rows.
pub open spec fn rows_of(rows: Seq<Vec<u64>>) -> Seq<Seq<u64>> {
    Seq::new(rows.len(), |k: int| rows[k]@)
}

/// Works out the total of a worksheet from its lines.
#[verifier::loop_isolation(false)]
pub fn worksheet_total(lines: &Vec<Vec<char>>) -> (total: Option<u64>)
    ensures
        total == sheet_total(pieces_of(lines@)),
{
    let ghost text = pieces_of(lines@);
    let n = lines.len();
    if n < 2 {
        return None;
    }
    assert(text[n - 1] == lines@[n - 1]@);
    let operations = match read_operations(&lines[n - 1]) {
        Some(operations) => operations,
        None => {
            return None;
        },
    };
    let mut rows: Vec<Vec<u64>> = Vec::new();
    let mut k: usize = 0;
    while k < n - 1
        invariant
            n >= 2,
            k <= n - 1,
            n == lines@.len(),
            text == pieces_of(lines@),
            rows@.len() == k,
            forall|r: int| 0 <= r < k ==> numbers_in(#[trigger] text[n - 2 - r]) is Some,
            forall|r: int| 0 <= r < k ==> (#[trigger] rows@[r])@ == numbers_in(text[n - 2 - r])->0,
        decreases n - 1 - k,
    {
        proof {
            assert(text[n - 2 - k] == lines@[n - 2 - k]@);
        }
        match read_numbers(&lines[n - 2 - k]) {
            Some(numbers) => {
                rows.push(numbers);
            },
            None => {
                assert(!rows_are_numbers(text));
                return None;
            },
        }
        k = k + 1;
    }
    proof {
        assert forall|r: int| 0 <= r < n - 1 implies numbers_in(#[trigger] text[r]) is Some by {
            assert(numbers_in(text[n - 2 - (n - 2 - r)]) is Some);
        }
        assert(rows_of(rows@) =~= sheet_rows(text));
    }
    let ghost sheet = sheet_rows(text);
    let width = rows[0].len();
    proof {
        assert(sheet[0] == rows@[0]@);
    }
    let mut r: usize = 0;
    while r < rows.len()
        invariant
            r <= rows@.len(),
            sheet == rows_of(rows@),
            forall|q: int| 0 <= q < r ==> (#[trigger] sheet[q]).len() >= width,
        decreases rows@.len() - r,
    {
        proof {
            assert(sheet[r as int] == rows@[r as int]@);
        }
        if rows[r].len() < width {
            return None;
        }
        r = r + 1;
    }
    let pairs = if width <= operations.len() {
        width
    } else {
        operations.len()
    };
    let mut total: u64 = 0;
    let mut c: usize = 0;
    while c < pairs
        invariant
            c <= pairs,
            pairs <= width,
            pairs <= operations@.len(),
            sheet == rows_of(rows@),
            rows_reach(sheet, width as int),
            columns_total(sheet, operations@, c as int) == Some(total),
        decreases pairs - c,
    {
        let mut column: Vec<u64> = Vec::new();
        let mut q: usize = 0;
        while q < rows.len()
            invariant
                q <= rows@.len(),
                c < width,
                sheet == rows_of(rows@),
                rows_reach(sheet, width as int),
                column@ == column_of(sheet, c as int).take(q as int),
            decreases rows@.len() - q,
        {
            proof {
                assert(sheet[q as int] == rows@[q as int]@);
                assert(sheet[q as int].len() >= width);
            }
            column.push(rows[q][c]);
            assert(column_of(sheet, c as int).take(q + 1) =~= column_of(sheet, c as int).take(
                q as int,
            ).push(sheet[q as int][c as int]));
            q = q + 1;
        }
        assert(column@ =~= column_of(sheet, c as int));
        let score = match Column::new(column, operations[c]).try_score() {
            Some(score) => score,
            None => {
                proof {
                    lemma_columns_total_breaks(sheet, operations@, c + 1, pairs as int);
                }
                return None;
            },
        };
        total = match total.checked_add(score) {
            Some(total) => total,
            None => {
                proof {
                    lemma_columns_total_breaks(sheet, operations@, c + 1, pairs as int);
                }
                return None;
            },
        };
        c = c + 1;
    }
    Some(total)
}

/// Column `c` of the characters of a worksheet, counted from the right end
/// of each row: from each line but the last its character `c` places before
/// its end, the top line first.
pub open spec fn digit_column(lines: Seq<Seq<char>>, c: int) -> Seq<char> {
    Seq::new((lines.len() - 1) as nat, |row: int| lines[row][lines[row].len() - 1 - c])
}

/// Every character of the column is a blank.
pub open spec fn is_gap(column: Seq<char>) -> bool {
    forall|i: int| 0 <= i < column.len() ==> #[trigger] column[i] == ' '
}

/// What column `c` says when it is read as a line of text: its characters,
/// without a carriage return at its end unless it is the last column.
pub open spec fn column_text(lines: Seq<Seq<char>>, c: int) -> Seq<char> {
    if c < lines[0].len() - 1 {
        without_return(digit_column(lines, c))
    } else {
        digit_column(lines, c)
    }
}

/// The groups of numbers that were closed by a column of blanks, and the
/// numbers of the group that is still open.
pub struct Gathered {
    pub done: Seq<Seq<u64>>,
    pub current: Seq<u64>,
}

/// The groups after the first `k` columns were read. A column of blanks
/// closes a group. Any other column writes a number, read from top to
/// bottom, with white space round it that counts for nothing; a column
/// without characters is passed over. There are no groups where a column
/// writes no unsigned number of 64 bits.
pub open spec fn gathered(lines: Seq<Seq<char>>, k: int) -> Option<Gathered>
    decreases k,
{
    if k <= 0 {
        Some(Gathered { done: Seq::empty(), current: Seq::empty() })
    } else {
        match gathered(lines, k - 1) {
            None => None,
            Some(g) => {
                let text = column_text(lines, k - 1);
                if is_gap(digit_column(lines, k - 1)) {
                    Some(Gathered { done: g.done.push(g.current), current: Seq::empty() })
                } else if text.len() == 0 {
                    Some(g)
                } else if is_unsigned(trimmed(text), u64::MAX as int) {
                    Some(
                        Gathered {
                            done: g.done,
                            current: g.current.push(unsigned_value(trimmed(text)) as u64),
                        },
                    )
                } else {
                    None
                }
            },
        }
    }
}

/// The sum of the first `upto` operations, each folding a group of numbers:
/// the first operation the last group, the second the group before it and
/// so on. None where a fold breaks or the sum does not fit in 64 bits.
pub open spec fn groups_total(groups: Seq<Seq<u64>>, operations: Seq<Operation>, upto: int) -> Option<
    u64,
>
    decreases upto,
{
    if upto <= 0 {
        Some(0u64)
    } else {
        let group = groups[groups.len() - upto];
        let op = operations[upto - 1];
        match groups_total(groups, operations, upto - 1) {
            Some(before) => if foldable(op, group) && before + folded(op, group) <= u64::MAX {
                Some((before + folded(op, group)) as u64)
            } else {
                None
            },
            None => None,
        }
    }
}

/// No line but the last is shorter than the first line.
pub open spec fn lines_reach(lines: Seq<Seq<char>>) -> bool {
    forall|row: int| 0 <= row < lines.len() - 1 ==> (#[trigger] lines[row]).len() >= lines[0].len()
}

/// The total of a worksheet whose numbers are written downwards. Its last
/// line names the operations. The lines before it, set flush at their right
/// ends, are read column by column from the right; the columns between two
/// columns of blanks write the numbers of one group. The groups from left
/// to right go with the operations in their order, and the total is the sum
/// of the folded groups that have an operation. There is no total where
/// there is no line of numbers, a word of the last line is no operation, a
/// line is shorter than the first, a column writes no number, a fold breaks
/// or the sum does not fit in 64 bits.
pub open spec fn sheet_total_by_digits(lines: Seq<Seq<char>>) -> Option<u64> {
    if lines.len() >= 2 && operations_in(lines.last()) is Some && lines_reach(lines) && gathered(
        lines,
        lines[0].len() as int,
    ) is Some {
        let operations = operations_in(lines.last())->0;
        let g = gathered(lines, lines[0].len() as int)->0;
        let groups = g.done.push(g.current);
        groups_total(
            groups,
            operations,
            if groups.len() <= operations.len() {
                groups.len() as int
            } else {
                operations.len() as int
            },
        )
    } else {
        None
    }
}

proof fn lemma_gathered_breaks(lines: Seq<Seq<char>>, k: int, upto: int)
    requires
        0 <= k <= upto,
        gathered(lines, k) is None,
    ensures
        gathered(lines, upto) is None,
    decreases upto - k,
{
    if k < upto {
        lemma_gathered_breaks(lines, k, upto - 1);
    }
}

proof fn lemma_groups_total_breaks(
    groups: Seq<Seq<u64>>,
    operations: Seq<Operation>,
    k: int,
    upto: int,
)
    requires
        0 <= k <= upto,
        groups_total(groups, operations, k) is None,
    ensures
        groups_total(groups, operations, upto) is None,
    decreases upto - k,
{
    if k < upto {
        lemma_groups_total_breaks(groups, operations, k, upto - 1);
    }
}

/// Works out the total of a worksheet whose numbers are written downwards.
#[verifier::loop_isolation(false)]
pub fn worksheet_total_by_digits(lines: &Vec<Vec<char>>) -> (total: Option<u64>)
    ensures
        total == sheet_total_by_digits(pieces_of(lines@)),
{
    let ghost text = pieces_of(lines@);
    let n = lines.len();
    if n < 2 {
        return None;
    }
    assert(text[n - 1] == lines@[n - 1]@);
    assert(text[0] == lines@[0]@);
    let operations = match read_operations(&lines[n - 1]) {
        Some(operations) => operations,
        None => {
            return None;
        },
    };
    let rows = n - 1;
    let cols = lines[0].len();
    let mut row: usize = 0;
    while row < rows
        invariant
            row <= rows,
            forall|q: int| 0 <= q < row ==> (#[trigger] text[q]).len() >= cols,
        decreases rows - row,
    {
        assert(text[row as int] == lines@[row as int]@);
        if lines[row].len() < cols {
            return None;
        }
        row = row + 1;
    }
    let mut groups: Vec<Vec<u64>> = Vec::new();
    let mut current: Vec<u64> = Vec::new();
    let mut c: usize = 0;
    assert(rows_of(groups@) =~= Seq::<Seq<u64>>::empty());
    assert(current@ =~= Seq::<u64>::empty());
    while c < cols
        invariant
            c <= cols,
            lines_reach(text),
            gathered(text, c as int) == Some(
                Gathered { done: rows_of(groups@), current: current@ },
            ),
        decreases cols - c,
    {
        let mut column: Vec<char> = Vec::new();
        let mut blank = true;
        let mut q: usize = 0;
        while q < rows
            invariant
                q <= rows,
                column@ == digit_column(text, c as int).take(q as int),
                blank <==> forall|i: int| 0 <= i < q ==> #[trigger] digit_column(text, c as int)[i] == ' ',
            decreases rows - q,
        {
            proof {
                assert(text[q as int] == lines@[q as int]@);
                assert(text[q as int].len() >= cols);
            }
            let ch = lines[q][lines[q].len() - 1 - c];
            if ch != ' ' {
                blank = false;
                assert(digit_column(text, c as int)[q as int] != ' ');
            }
            column.push(ch);
            assert(digit_column(text, c as int).take(q + 1) =~= digit_column(text, c as int).take(
                q as int,
            ).push(ch));
            q = q + 1;
        }
        assert(column@ =~= digit_column(text, c as int));
        let ghost before = rows_of(groups@);
        if blank {
            groups.push(current);
            current = Vec::new();
            assert(rows_of(groups@) =~= before.push(gathered(text, c as int)->0.current));
        } else {
            if c < cols - 1 && column.len() > 0 && column[column.len() - 1] == '\r' {
                column.pop();
            }
            assert(column@ =~= column_text(text, c as int));
            if column.len() > 0 {
                let ends = trim(&column);
                match parse_unsigned(&column, ends.0, ends.1, 0xffff_ffff_ffff_ffff) {
                    Some(number) => {
                        current.push(number);
                    },
                    None => {
                        proof {
                            lemma_gathered_breaks(text, c + 1, cols as int);
                        }
                        return None;
                    },
                }
            }
        }
        c = c + 1;
    }
    let ghost closed = rows_of(groups@).push(current@);
    groups.push(current);
    assert(rows_of(groups@) =~= closed);
    let count = groups.len();
    let pairs = if count <= operations.len() {
        count
    } else {
        operations.len()
    };
    let mut total: u64 = 0;
    let mut i: usize = 0;
    while i < pairs
        invariant
            i <= pairs,
            count == groups@.len(),
            rows_of(groups@) == closed,
            groups_total(closed, operations@, i as int) == Some(total),
        decreases pairs - i,
    {
        proof {
            assert(closed[count - 1 - i] == groups@[count - 1 - i]@);
        }
        let group = groups[count - 1 - i].clone();
        let score = match Column::new(group, operations[i]).try_score() {
            Some(score) => score,
            None => {
                proof {
                    lemma_groups_total_breaks(closed, operations@, i + 1, pairs as int);
                }
                return None;
            },
        };
        total = match total.checked_add(score) {
            Some(total) => total,
            None => {
                proof {
                    lemma_groups_total_breaks(closed, operations@, i + 1, pairs as int);
                }
                return None;
            },
        };
        i = i + 1;
    }
    Some(total)
}

/// Works out the total of the worksheet that the text holds, a line of the
/// sheet in each line of the text.
pub fn worksheet_total_of(input: &str) -> (total: Option<u64>)
    ensures
        total == sheet_total(lines_of(input@)),
{
    let chars = chars_of(input);
    let rows = lines(&chars);
    worksheet_total(&rows)
}

/// Works out the total of the worksheet that the text holds, with the
/// numbers written downwards.
pub fn worksheet_total_by_digits_of(input: &str) -> (total: Option<u64>)
    ensures
        total == sheet_total_by_digits(lines_of(input@)),
{
    let chars = chars_of(input);
    let rows = lines(&chars);
    worksheet_total_by_digits(&rows)
}

/// Where the sum of the first columns is none, so is the sum of more.
proof fn lemma_columns_total_breaks(
    rows: Seq<Seq<u64>>,
    operations: Seq<Operation>,
    k: int,
    upto: int,
)
    requires
        0 <= k <= upto,
        columns_total(rows, operations, k) is None,
    ensures
        columns_total(rows, operations, upto) is None,
    decreases upto - k,
{
    if k < upto {
        lemma_columns_total_breaks(rows, operations, k, upto - 1);
    }
}

/// Where a whole fold goes through, so does the fold of its first `k`
/// numbers.
pub proof fn lemma_foldable_prefix(op: Operation, nums: Seq<u64>, k: int)
    requires
        foldable(op, nums),
        0 <= k <= nums.len(),
    ensures
        foldable(op, nums.take(k)),
    decreases nums.len(),
{
    if k == nums.len() {
        assert(nums.take(k) =~= nums);
    } else {
        lemma_foldable_prefix(op, nums.drop_last(), k);
        assert(nums.drop_last().take(k) =~= nums.take(k));
    }
}

} // verus!
