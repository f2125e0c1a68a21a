//! The text protocol of the question that is put to the user when several
//! projects match: a numbered list of names goes out, one line with an index
//! comes back.

use crate::resolver::ResolveError;
use crate::text::{chars_of, is_white_space, white_space};
use vstd::prelude::*;
use vstd::string::StringExecFns;

verus! {

/// Whether `c` is one of the digits `0` to `9`.
pub open spec fn is_digit(c: char) -> bool {
    0x30 <= c as u32 <= 0x39
}

/// The number that the digit `c` stands for.
pub open spec fn digit_value(c: char) -> nat {
    (c as u32 - 0x30) as nat
}

/// `s` without the white space at its start.
pub open spec fn trim_start(s: Seq<char>) -> Seq<char>
    decreases s.len(),
{
    if s.len() > 0 && is_white_space(s.first()) {
        trim_start(s.drop_first())
    } else {
        s
    }
}

/// `s` without the white space at its end.
pub open spec fn trim_end(s: Seq<char>) -> Seq<char>
    decreases s.len(),
{
    if s.len() > 0 && is_white_space(s.last()) {
        trim_end(s.drop_last())
    } else {
        s
    }
}

/// `s` without the white space that surrounds it.
pub open spec fn trimmed(s: Seq<char>) -> Seq<char> {
    trim_end(trim_start(s))
}

/// Whether `s` holds digits only.
pub open spec fn all_digits(s: Seq<char>) -> bool {
    forall|i: int| 0 <= i < s.len() ==> is_digit(#[trigger] s[i])
}

/// The number that a run of digits writes in base ten.
pub open spec fn decimal_value(digits: Seq<char>) -> nat
    decreases digits.len(),
{
    if digits.len() == 0 {
        0
    } else {
        10 * decimal_value(digits.drop_last()) + digit_value(digits.last())
    }
}

/// The index that a line of input gives, if it gives one.
///
/// White space around the line is ignored. What is left has to be a number
/// in base ten: one digit or more, with nothing but a `+` in front of them.
pub open spec fn parsed_index(line: Seq<char>) -> Option<nat> {
    let text = trimmed(line);
    let digits = if text.len() > 0 && text.first() == '+' {
        text.drop_first()
    } else {
        text
    };
    if digits.len() > 0 && all_digits(digits) {
        Some(decimal_value(digits))
    } else {
        None
    }
}

/// Where the text of a line starts and ends once the white space around it
/// is left out.
fn trim_bounds(chars: &Vec<char>) -> (bounds: (usize, usize))
    ensures
        bounds.0 <= bounds.1 <= chars@.len(),
        trimmed(chars@) == chars@.subrange(bounds.0 as int, bounds.1 as int),
{
    let ghost s = chars@;
    let len = chars.len();
    let mut start: usize = 0;
    assert(s.skip(0) =~= s);
    while start < len && white_space(chars[start])
        invariant
            chars@ == s,
            len == s.len(),
            start <= len,
            trim_start(s) == trim_start(s.skip(start as int)),
        decreases len - start,
    {
        assert(s.skip(start as int).drop_first() =~= s.skip(start + 1));
        start += 1;
    }
    let mut end: usize = len;
    assert(s.subrange(start as int, end as int) =~= s.skip(start as int));
    while end > start && white_space(chars[end - 1])
        invariant
            chars@ == s,
            len == s.len(),
            start <= end <= len,
            trimmed(s) == trim_end(s.subrange(start as int, end as int)),
        decreases end - start,
    {
        assert(s.subrange(start as int, end as int).drop_last() =~= s.subrange(
            start as int,
            end - 1,
        ));
        end -= 1;
    }
    (start, end)
}

/// Reads the digits `chars[from..to]` as a number in base ten. A number of
/// `count` or more is reported as `count`; anything but a digit in the range
/// gives `None`.
fn read_digits(chars: &Vec<char>, from: usize, to: usize, count: usize) -> (number: Option<usize>)
    requires
        from <= to <= chars@.len(),
    ensures
        ({
            let digits = chars@.subrange(from as int, to as int);
            number == if !all_digits(digits) {
                None
            } else if decimal_value(digits) < count {
                Some(decimal_value(digits) as usize)
            } else {
                Some(count)
            }
        }),
{
    let ghost digits = chars@.subrange(from as int, to as int);
    let mut value: usize = 0;
    let mut k: usize = from;
    assert(digits.take(0).len() == 0);
    while k < to
        invariant
            from <= k <= to <= chars@.len(),
            digits == chars@.subrange(from as int, to as int),
            all_digits(digits.take(k - from)),
            value <= count,
            value == count <==> decimal_value(digits.take(k - from)) >= count,
            value < count ==> value == decimal_value(digits.take(k - from)),
        decreases to - k,
    {
        let code: u32 = chars[k] as u32;
        if code < 0x30 || code > 0x39 {
            assert(!is_digit(digits[k - from]));
            return None;
        }
        let ghost seen = digits.take(k - from);
        let ghost next = digits.take(k - from + 1);
        assert(next.drop_last() =~= seen);
        assert(next.last() == chars@[k as int]);
        assert forall|i: int| 0 <= i < next.len() implies is_digit(#[trigger] next[i]) by {
            if i < seen.len() {
                assert(next[i] == seen[i]);
            }
        }
        if value < count {
            let wide: u128 = 10 * (value as u128) + ((code - 0x30) as u128);
            value = if wide >= count as u128 {
                count
            } else {
                wide as usize
            };
        }
        k += 1;
    }
    assert(digits.take(to - from) =~= digits);
    Some(value)
}

/// Reads the index that a line of input gives among `count` choices.
///
/// A line that is not a number is invalid input. A line that is a number, but
/// not the index of a choice, is out of range, however large the number is.
pub fn read_selection(line: &str, count: usize) -> (selection: Result<usize, ResolveError>)
    ensures
        selection == match parsed_index(line@) {
            None => Err::<usize, ResolveError>(ResolveError::InvalidSelectionInput),
            Some(index) => if index < count {
                Ok(index as usize)
            } else {
                Err(ResolveError::SelectionOutOfRange)
            },
        },
{
    let chars = chars_of(line);
    let (start, end) = trim_bounds(&chars);
    let ghost text = chars@.subrange(start as int, end as int);
    let mut from: usize = start;
    if from < end && chars[from] == '+' {
        from += 1;
        assert(text.drop_first() =~= chars@.subrange(from as int, end as int));
    }
    if from == end {
        return Err(ResolveError::InvalidSelectionInput);
    }
    match read_digits(&chars, from, end, count) {
        None => Err(ResolveError::InvalidSelectionInput),
        Some(index) => if index < count {
            Ok(index)
        } else {
            Err(ResolveError::SelectionOutOfRange)
        },
    }
}

/// Answers the question put to the user: the choice whose index the line of
/// input gives.
pub fn prompt_user_for_project_selection(choices: &[String], index_input: &str) -> (selected:
    Result<String, ResolveError>)
    ensures
        match parsed_index(index_input@) {
            None => selected == Err::<String, ResolveError>(ResolveError::InvalidSelectionInput),
            Some(index) => if index < choices@.len() {
                selected matches Ok(name) && name@ == choices@[index as int]@
            } else {
                selected == Err::<String, ResolveError>(ResolveError::SelectionOutOfRange)
            },
        },
{
    match read_selection(index_input, choices.len()) {
        Ok(index) => Ok(choices[index].clone()),
        Err(error) => Err(error),
    }
}

/// The digit that writes `d`, for `d` below ten.
pub open spec fn digit_char(d: nat) -> char {
    (0x30 + d) as u8 as char
}

/// `n` written in base ten, without leading zeros.
pub open spec fn decimal_digits(n: nat) -> Seq<char>
    decreases n,
{
    if n < 10 {
        seq![digit_char(n)]
    } else {
        decimal_digits(n / 10).push(digit_char(n % 10))
    }
}

/// The line that offers the choice `name` under `index`: the index, a colon,
/// a space, and the name.
pub open spec fn menu_line(index: nat, name: Seq<char>) -> Seq<char> {
    decimal_digits(index) + seq![':', ' '] + name
}

/// A number written in base ten is a run of digits that reads back as the
/// number.
pub proof fn lemma_decimal_digits(n: nat)
    ensures
        decimal_digits(n).len() >= 1,
        all_digits(decimal_digits(n)),
        decimal_value(decimal_digits(n)) == n,
    decreases n,
{
    if n < 10 {
        let digits = decimal_digits(n);
        assert(digits.drop_last().len() == 0);
        assert(decimal_value(digits.drop_last()) == 0);
        assert(digit_value(digits.last()) == n);
    } else {
        lemma_decimal_digits(n / 10);
        let front = decimal_digits(n / 10);
        let digits = decimal_digits(n);
        assert(digits.drop_last() =~= front);
        assert(digit_value(digits.last()) == n % 10);
        assert forall|i: int| 0 <= i < digits.len() implies is_digit(#[trigger] digits[i]) by {
            if i < front.len() {
                assert(digits[i] == front[i]);
            }
        }
    }
}

/// The index under which the menu offers a choice selects that choice: the
/// index as it is written in the menu reads back as itself.
pub proof fn lemma_written_index_reads_back(index: nat)
    ensures
        parsed_index(decimal_digits(index)) == Some(index),
{
    let digits = decimal_digits(index);
    lemma_decimal_digits(index);
    assert(is_digit(digits.first()));
    assert(is_digit(digits.last()));
    assert(trim_start(digits) == digits);
    assert(trim_end(digits) == digits);
}

/// The digit that writes `d`, as a string.
fn digit_str(d: usize) -> (digit: &'static str)
    requires
        d < 10,
    ensures
        digit@ == seq![digit_char(d as nat)],
{
    proof {
        reveal_strlit("0");
        reveal_strlit("1");
        reveal_strlit("2");
        reveal_strlit("3");
        reveal_strlit("4");
        reveal_strlit("5");
        reveal_strlit("6");
        reveal_strlit("7");
        reveal_strlit("8");
        reveal_strlit("9");
    }
    let digit = if d == 0 {
        "0"
    } else if d == 1 {
        "1"
    } else if d == 2 {
        "2"
    } else if d == 3 {
        "3"
    } else if d == 4 {
        "4"
    } else if d == 5 {
        "5"
    } else if d == 6 {
        "6"
    } else if d == 7 {
        "7"
    } else if d == 8 {
        "8"
    } else {
        "9"
    };
    assert(digit@ =~= seq![digit_char(d as nat)]);
    digit
}

/// Writes `n` in base ten.
pub fn decimal_string(n: usize) -> (written: String)
    ensures
        written@ == decimal_digits(n as nat),
    decreases n,
{
    if n < 10 {
        digit_str(n).to_string()
    } else {
        let mut written = decimal_string(n / 10);
        written.append(digit_str(n % 10));
        assert(written@ =~= decimal_digits(n as nat));
        written
    }
}

/// Lists the choices for the user, one line each: the index of the choice,
/// counted from zero, then a colon, a space and the name.
pub fn selection_menu(choices: &[String]) -> (lines: Vec<String>)
    ensures
        lines@.len() == choices@.len(),
        forall|i: int|
            0 <= i < choices@.len() ==> (#[trigger] lines@[i])@ == menu_line(
                i as nat,
                choices@[i]@,
            ),
{
    let mut lines: Vec<String> = Vec::new();
    let mut i: usize = 0;
    while i < choices.len()
        invariant
            i <= choices@.len(),
            lines@.len() == i,
            forall|k: int|
                0 <= k < i ==> (#[trigger] lines@[k])@ == menu_line(k as nat, choices@[k]@),
        decreases choices@.len() - i,
    {
        proof {
            reveal_strlit(": ");
        }
        let mut line = decimal_string(i);
        line.append(": ");
        line.append(choices[i].as_str());
        assert(line@ =~= menu_line(i as nat, choices@[i as int]@));
        lines.push(line);
        i += 1;
    }
    lines
}

} // verus!
