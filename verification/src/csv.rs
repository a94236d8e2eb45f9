//! Commands as lines of text.
//!
//! A line holds one command. Its fields are separated by commas, and
//! whitespace around a field does not count. The first character of the line
//! that is not whitespace is the tag of the command:
//!
//! - `N, user id, symbol, price, quantity, side, user order id`: a new order;
//! - `C, user id, user order id`: a cancel;
//! - `F`: a flush;
//! - `#`, or a line of whitespace only: a comment, which is skipped.

use vstd::prelude::*;
use crate::command::{CancelOrder, Command, CommandView, NewOrder, NewOrderView};

verus! {

/// Why a line is not a command.
#[derive(Debug, Clone, Copy, PartialEq, Eq, Structural)]
pub enum ParseError {
    /// The tag of the line is none of `N`, `C`, `F` and `#`.
    UnrecognizedCommand,
    /// The line has fewer fields than its command takes, or the side of a
    /// new order is empty.
    MissingField,
    /// A field that holds a number is not a decimal number that fits into
    /// 64 bits.
    InvalidNumber,
}

/// Whether `c` is whitespace: a character with the Unicode property
/// `White_Space`.
pub open spec fn is_space(c: char) -> bool {
    let n = c as u32;
    ||| 0x9 <= n <= 0xD
    ||| n == 0x20
    ||| n == 0x85
    ||| n == 0xA0
    ||| n == 0x1680
    ||| 0x2000 <= n <= 0x200A
    ||| n == 0x2028
    ||| n == 0x2029
    ||| n == 0x202F
    ||| n == 0x205F
    ||| n == 0x3000
}

/// `text` without the whitespace at its start.
pub open spec fn trim_start(text: Seq<char>) -> Seq<char>
    decreases text.len(),
{
    if text.len() > 0 && is_space(text[0]) {
        trim_start(text.drop_first())
    } else {
        text
    }
}

/// `text` without the whitespace at its end.
pub open spec fn trim_end(text: Seq<char>) -> Seq<char>
    decreases text.len(),
{
    if text.len() > 0 && is_space(text.last()) {
        trim_end(text.drop_last())
    } else {
        text
    }
}

/// `text` without the whitespace at its start and at its end.
pub open spec fn trimmed(text: Seq<char>) -> Seq<char> {
    trim_end(trim_start(text))
}

/// The fields of `line`: the pieces between its commas. A line with `n`
/// commas has `n + 1` fields, some of which may be empty.
pub open spec fn fields(line: Seq<char>) -> Seq<Seq<char>>
    decreases line.len(),
{
    if line.len() == 0 {
        seq![Seq::<char>::empty()]
    } else if line.last() == ',' {
        fields(line.drop_last()).push(Seq::<char>::empty())
    } else {
        let before = fields(line.drop_last());
        before.drop_last().push(before.last().push(line.last()))
    }
}

/// Whether `c` is one of the digits `0` to `9`.
pub open spec fn is_digit(c: char) -> bool {
    '0' <= c <= '9'
}

/// Whether `text` consists of digits only.
pub open spec fn all_digits(text: Seq<char>) -> bool {
    forall|i: int| 0 <= i < text.len() ==> is_digit(#[trigger] text[i])
}

/// The number that the digits `text` are the decimal notation of.
pub open spec fn value(text: Seq<char>) -> int
    decreases text.len(),
{
    if text.len() == 0 {
        0
    } else {
        10 * value(text.drop_last()) + (text.last() as u32 - '0' as u32)
    }
}

/// The number that `text` denotes: `text` is one digit or more, with or
/// without a `+` before them, and the number fits into 64 bits. None where
/// `text` is not of that form.
pub open spec fn number(text: Seq<char>) -> Option<u64> {
    let digits = if text.len() > 0 && text[0] == '+' {
        text.drop_first()
    } else {
        text
    };
    if digits.len() > 0 && all_digits(digits) && value(digits) <= u64::MAX {
        Some(value(digits) as u64)
    } else {
        None
    }
}

/// The field `k` of a line with the fields `words`, without the whitespace
/// around it.
pub open spec fn field_at(words: Seq<Seq<char>>, k: int) -> Result<Seq<char>, ParseError> {
    if 0 <= k < words.len() {
        Ok(trimmed(words[k]))
    } else {
        Err(ParseError::MissingField)
    }
}

/// The number in the field `k` of a line with the fields `words`.
pub open spec fn number_at(words: Seq<Seq<char>>, k: int) -> Result<u64, ParseError> {
    match field_at(words, k) {
        Ok(text) => match number(text) {
            Some(n) => Ok(n),
            None => Err(ParseError::InvalidNumber),
        },
        Err(e) => Err(e),
    }
}

/// The side in the field `k` of a line with the fields `words`: the first
/// character of the field.
pub open spec fn side_at(words: Seq<Seq<char>>, k: int) -> Result<char, ParseError> {
    match field_at(words, k) {
        Ok(text) => if text.len() > 0 {
            Ok(text[0])
        } else {
            Err(ParseError::MissingField)
        },
        Err(e) => Err(e),
    }
}

/// The new order that a line with the fields `words` holds. The fields are
/// read in their order, and the first one that is missing or wrong decides
/// the error.
pub open spec fn new_command(words: Seq<Seq<char>>) -> Result<CommandView, ParseError> {
    match number_at(words, 1) {
        Err(e) => Err(e),
        Ok(user_id) => match field_at(words, 2) {
            Err(e) => Err(e),
            Ok(symbol) => match number_at(words, 3) {
                Err(e) => Err(e),
                Ok(price) => match number_at(words, 4) {
                    Err(e) => Err(e),
                    Ok(quantity) => match side_at(words, 5) {
                        Err(e) => Err(e),
                        Ok(side) => match number_at(words, 6) {
                            Err(e) => Err(e),
                            Ok(user_order_id) => Ok(
                                CommandView::New(
                                    NewOrderView {
                                        user_id,
                                        user_order_id,
                                        symbol,
                                        price,
                                        quantity,
                                        side,
                                    },
                                ),
                            ),
                        },
                    },
                },
            },
        },
    }
}

/// The cancel that a line with the fields `words` holds.
pub open spec fn cancel_command(words: Seq<Seq<char>>) -> Result<CommandView, ParseError> {
    match number_at(words, 1) {
        Err(e) => Err(e),
        Ok(user_id) => match number_at(words, 2) {
            Err(e) => Err(e),
            Ok(user_order_id) => Ok(CommandView::Cancel(CancelOrder { user_id, user_order_id })),
        },
    }
}

/// The command that `line` holds; none for a comment.
pub open spec fn line_command(line: Seq<char>) -> Result<Option<CommandView>, ParseError> {
    let text = trim_start(line);
    if text.len() == 0 || text[0] == '#' {
        Ok(None)
    } else if text[0] == 'N' {
        match new_command(fields(line)) {
            Ok(command) => Ok(Some(command)),
            Err(e) => Err(e),
        }
    } else if text[0] == 'C' {
        match cancel_command(fields(line)) {
            Ok(command) => Ok(Some(command)),
            Err(e) => Err(e),
        }
    } else if text[0] == 'F' {
        Ok(Some(CommandView::Flush))
    } else {
        Err(ParseError::UnrecognizedCommand)
    }
}

/// The commands that `lines` hold, in their order; the error of the first
/// line that is not a command, if there is one.
pub open spec fn commands(lines: Seq<Seq<char>>) -> Result<Seq<CommandView>, ParseError>
    decreases lines.len(),
{
    if lines.len() == 0 {
        Ok(Seq::empty())
    } else {
        match commands(lines.drop_last()) {
            Err(e) => Err(e),
            Ok(before) => match line_command(lines.last()) {
                Err(e) => Err(e),
                Ok(None) => Ok(before),
                Ok(Some(command)) => Ok(before.push(command)),
            },
        }
    }
}

/// The characters of each of `words`.
pub open spec fn texts(words: Seq<&str>) -> Seq<Seq<char>> {
    words.map_values(|word: &str| word@)
}

/// The views of `commands`.
pub open spec fn views(commands: Seq<Command>) -> Seq<CommandView> {
    commands.map_values(|command: Command| command@)
}

/// The characters of `text`.
fn chars_of(text: &str) -> (chars: Vec<char>)
    ensures
        chars@ == text@,
{
    let mut chars: Vec<char> = Vec::new();
    for c in it: text.chars()
        invariant
            chars@ == it.seq().take(it.index() as int),
            it.seq() == text@,
    {
        chars.push(c);
        assert(it.seq().take(it.index() + 1) == it.seq().take(it.index() as int).push(c));
    }
    assert(text@.take(text@.len() as int) == text@);
    chars
}

/// Whether `c` is whitespace.
fn is_whitespace(c: char) -> (space: bool)
    ensures
        space == is_space(c),
{
    let n = c as u32;
    (0x9 <= n && n <= 0xD) || n == 0x20 || n == 0x85 || n == 0xA0 || n == 0x1680 || (0x2000 <= n
        && n <= 0x200A) || n == 0x2028 || n == 0x2029 || n == 0x202F || n == 0x205F || n == 0x3000
}

/// The place of the first character of `chars` that is not whitespace.
fn skip_spaces(chars: &Vec<char>) -> (start: usize)
    ensures
        start <= chars@.len(),
        trim_start(chars@) == chars@.skip(start as int),
{
    let mut start: usize = 0;
    assert(chars@.skip(0) == chars@);
    while start < chars.len() && is_whitespace(chars[start])
        invariant
            start <= chars@.len(),
            trim_start(chars@) == trim_start(chars@.skip(start as int)),
        decreases chars@.len() - start,
    {
        assert(chars@.skip(start as int).drop_first() == chars@.skip(start + 1));
        start = start + 1;
    }
    start
}

/// `text` without the whitespace at its start and at its end.
fn trim<'a>(text: &'a str) -> (inner: &'a str)
    ensures
        inner@ == trimmed(text@),
{
    let chars = chars_of(text);
    let start = skip_spaces(&chars);
    let mut end: usize = chars.len();
    assert(chars@.subrange(start as int, end as int) == chars@.skip(start as int));
    while end > start && is_whitespace(chars[end - 1])
        invariant
            start <= end <= chars@.len(),
            trimmed(text@) == trim_end(chars@.subrange(start as int, end as int)),
            chars@ == text@,
        decreases end,
    {
        assert(chars@.subrange(start as int, end as int).drop_last() == chars@.subrange(
            start as int,
            end - 1,
        ));
        end = end - 1;
    }
    text.substring_char(start, end)
}

/// The fields of `line`: the pieces between its commas.
fn split<'a>(line: &'a str) -> (words: Vec<&'a str>)
    ensures
        texts(words@) == fields(line@),
{
    let chars = chars_of(line);
    let mut words: Vec<&'a str> = Vec::new();
    let mut start: usize = 0;
    let mut at: usize = 0;
    assert(line@.take(0) == Seq::<char>::empty());
    assert(texts(words@).push(line@.subrange(0, 0)) == fields(line@.take(0)));
    while at < chars.len()
        invariant
            start <= at <= chars@.len(),
            chars@ == line@,
            texts(words@).push(line@.subrange(start as int, at as int)) == fields(
                line@.take(at as int),
            ),
        decreases chars@.len() - at,
    {
        let ghost before = fields(line@.take(at as int));
        let ghost so_far = texts(words@);
        assert(line@.take(at + 1).drop_last() == line@.take(at as int));
        assert(before.last() == line@.subrange(start as int, at as int));
        assert(before.drop_last() == so_far);
        if chars[at] == ',' {
            words.push(line.substring_char(start, at));
            start = at + 1;
            assert(texts(words@) == before);
            assert(line@.subrange(start as int, at + 1) == Seq::<char>::empty());
        } else {
            assert(line@.subrange(start as int, at + 1) == line@.subrange(
                start as int,
                at as int,
            ).push(line@[at as int]));
        }
        at = at + 1;
    }
    assert(line@.take(at as int) == line@);
    words.push(line.substring_char(start, at));
    words
}

/// The number that `text` denotes.
fn parse_number(text: &str) -> (parsed: Option<u64>)
    ensures
        parsed == number(text@),
{
    let chars = chars_of(text);
    let first: usize = if chars.len() > 0 && chars[0] == '+' {
        1
    } else {
        0
    };
    let ghost digits = chars@.skip(first as int);
    assert(first == 1 ==> digits == text@.drop_first());
    assert(first == 0 ==> digits == text@);
    if first == chars.len() {
        return None;
    }
    let mut at: usize = first;
    let mut total: u64 = 0;
    assert(digits.take(0) == Seq::<char>::empty());
    while at < chars.len()
        invariant
            first <= at <= chars@.len(),
            digits == chars@.skip(first as int),
            digits.len() > 0,
            number(text@) == if all_digits(digits) && value(digits) <= u64::MAX {
                Some(value(digits) as u64)
            } else {
                None
            },
            all_digits(digits.take(at - first)),
            total == value(digits.take(at - first)),
        decreases chars@.len() - at,
    {
        let c = chars[at];
        let ghost seen = digits.take(at - first);
        assert(digits.take(at - first + 1).drop_last() == seen);
        assert(digits.take(at - first + 1).last() == c);
        if !('0' <= c && c <= '9') {
            proof {
                assert(!is_digit(digits[at - first]));
            }
            return None;
        }
        let d = (c as u32 - '0' as u32) as u64;
        let next = match total.checked_mul(10) {
            Some(tenfold) => tenfold.checked_add(d),
            None => None,
        };
        match next {
            Some(next) => {
                total = next;
            },
            None => {
                proof {
                    assert(value(digits.take(at - first + 1)) > u64::MAX);
                    if all_digits(digits) {
                        lemma_value_grows(digits, at - first + 1);
                    }
                }
                return None;
            },
        }
        assert forall|i: int| 0 <= i < at - first + 1 implies is_digit(
            #[trigger] digits.take(at - first + 1)[i],
        ) by {
            if i < at - first {
                assert(digits.take(at - first + 1)[i] == seen[i]);
            }
        }
        at = at + 1;
    }
    assert(digits.take(at - first) == digits);
    Some(total)
}

/// The field `k` of `words`, without the whitespace around it.
fn field<'a>(words: &[&'a str], k: usize) -> (text: Result<&'a str, ParseError>)
    ensures
        match text {
            Ok(text) => field_at(texts(words@), k as int) == Ok::<Seq<char>, ParseError>(text@),
            Err(e) => field_at(texts(words@), k as int) == Err::<Seq<char>, ParseError>(e),
        },
{
    if k < words.len() {
        Ok(trim(words[k]))
    } else {
        Err(ParseError::MissingField)
    }
}

/// The number in the field `k` of `words`.
fn number_field(words: &[&str], k: usize) -> (parsed: Result<u64, ParseError>)
    ensures
        parsed == number_at(texts(words@), k as int),
{
    match field(words, k) {
        Ok(text) => match parse_number(text) {
            Some(n) => Ok(n),
            None => Err(ParseError::InvalidNumber),
        },
        Err(e) => Err(e),
    }
}

/// The side in the field `k` of `words`.
fn side_field(words: &[&str], k: usize) -> (parsed: Result<char, ParseError>)
    ensures
        parsed == side_at(texts(words@), k as int),
{
    match field(words, k) {
        Ok(text) => {
            let chars = chars_of(text);
            if chars.len() > 0 {
                Ok(chars[0])
            } else {
                Err(ParseError::MissingField)
            }
        },
        Err(e) => Err(e),
    }
}

/// Reads a new order from the fields of a line: after the tag come the user
/// id, the symbol, the price, the quantity, the side and the user order id.
/// Fields beyond these are not looked at.
pub fn parse_new_command(words: &[&str]) -> (parsed: Result<Command, ParseError>)
    ensures
        match parsed {
            Ok(command) => new_command(texts(words@)) == Ok::<CommandView, ParseError>(command@),
            Err(e) => new_command(texts(words@)) == Err::<CommandView, ParseError>(e),
        },
{
    let user_id = match number_field(words, 1) {
        Ok(n) => n,
        Err(e) => {
            return Err(e);
        },
    };
    let symbol = match field(words, 2) {
        Ok(text) => text.to_string(),
        Err(e) => {
            return Err(e);
        },
    };
    let price = match number_field(words, 3) {
        Ok(n) => n,
        Err(e) => {
            return Err(e);
        },
    };
    let quantity = match number_field(words, 4) {
        Ok(n) => n,
        Err(e) => {
            return Err(e);
        },
    };
    let side = match side_field(words, 5) {
        Ok(c) => c,
        Err(e) => {
            return Err(e);
        },
    };
    let user_order_id = match number_field(words, 6) {
        Ok(n) => n,
        Err(e) => {
            return Err(e);
        },
    };
    Ok(Command::New(NewOrder { user_id, user_order_id, symbol, price, quantity, side }))
}

/// Reads a cancel from the fields of a line: after the tag come the user id
/// and the user order id. Fields beyond these are not looked at.
pub fn parse_cancel_command(words: &[&str]) -> (parsed: Result<Command, ParseError>)
    ensures
        match parsed {
            Ok(command) => cancel_command(texts(words@)) == Ok::<CommandView, ParseError>(
                command@,
            ),
            Err(e) => cancel_command(texts(words@)) == Err::<CommandView, ParseError>(e),
        },
{
    let user_id = match number_field(words, 1) {
        Ok(n) => n,
        Err(e) => {
            return Err(e);
        },
    };
    let user_order_id = match number_field(words, 2) {
        Ok(n) => n,
        Err(e) => {
            return Err(e);
        },
    };
    Ok(Command::Cancel(CancelOrder { user_id, user_order_id }))
}

/// The flush command, which has no fields to read.
pub fn parse_flush_command() -> (parsed: Result<Command, ParseError>)
    ensures
        parsed matches Ok(command) && command@ == CommandView::Flush,
{
    Ok(Command::Flush)
}

/// Reads the command of one line; none for a comment or a blank line.
pub fn parse_line(line: &str) -> (parsed: Result<Option<Command>, ParseError>)
    ensures
        match parsed {
            Ok(Some(command)) => line_command(line@) == Ok::<Option<CommandView>, ParseError>(
                Some(command@),
            ),
            Ok(None) => line_command(line@) == Ok::<Option<CommandView>, ParseError>(None),
            Err(e) => line_command(line@) == Err::<Option<CommandView>, ParseError>(e),
        },
{
    let chars = chars_of(line);
    let start = skip_spaces(&chars);
    if start == chars.len() {
        return Ok(None);
    }
    let tag = chars[start];
    assert(tag == trim_start(line@)[0]);
    if tag == '#' {
        return Ok(None);
    }
    let parsed = if tag == 'N' {
        let words = split(line);
        parse_new_command(words.as_slice())
    } else if tag == 'C' {
        let words = split(line);
        parse_cancel_command(words.as_slice())
    } else if tag == 'F' {
        parse_flush_command()
    } else {
        return Err(ParseError::UnrecognizedCommand);
    };
    match parsed {
        Ok(command) => Ok(Some(command)),
        Err(e) => Err(e),
    }
}

/// Reads the commands of `lines`, one line after the other. The first line
/// that is not a command ends the reading with its error, and no command is
/// returned.
pub fn parse_lines(lines: &[String]) -> (parsed: Result<Vec<Command>, ParseError>)
    ensures
        match parsed {
            Ok(list) => commands(lines@.map_values(|line: String| line@)) == Ok::<
                Seq<CommandView>,
                ParseError,
            >(views(list@)),
            Err(e) => commands(lines@.map_values(|line: String| line@)) == Err::<
                Seq<CommandView>,
                ParseError,
            >(e),
        },
{
    let ghost all = lines@.map_values(|line: String| line@);
    let mut list: Vec<Command> = Vec::new();
    let mut at: usize = 0;
    assert(all.take(0) == Seq::<Seq<char>>::empty());
    assert(views(list@) == Seq::<CommandView>::empty());
    while at < lines.len()
        invariant
            at <= lines@.len(),
            all == lines@.map_values(|line: String| line@),
            commands(all.take(at as int)) == Ok::<Seq<CommandView>, ParseError>(views(list@)),
        decreases lines@.len() - at,
    {
        let ghost before = views(list@);
        assert(all.take(at + 1).drop_last() == all.take(at as int));
        assert(all.take(at + 1).last() == lines@[at as int]@);
        match parse_line(lines[at].as_str()) {
            Ok(Some(command)) => {
                list.push(command);
                assert(views(list@) == before.push(command@));
            },
            Ok(None) => {},
            Err(e) => {
                proof {
                    lemma_commands_fail(all, at as int);
                }
                return Err(e);
            },
        }
        at = at + 1;
    }
    assert(all.take(at as int) == all);
    Ok(list)
}

/// Where the beginning of a list of lines fails, the whole list fails with
/// the same error.
proof fn lemma_commands_fail(lines: Seq<Seq<char>>, k: int)
    requires
        0 <= k < lines.len(),
        commands(lines.take(k + 1)) is Err,
    ensures
        commands(lines) == commands(lines.take(k + 1)),
    decreases lines.len(),
{
    if k + 1 < lines.len() {
        let front = lines.drop_last();
        assert(front.take(k + 1) == lines.take(k + 1));
        lemma_commands_fail(front, k);
    } else {
        assert(lines.take(k + 1) == lines);
    }
}

/// A decimal notation denotes no less than any of its beginnings.
proof fn lemma_value_grows(digits: Seq<char>, k: int)
    requires
        all_digits(digits),
        0 <= k <= digits.len(),
    ensures
        value(digits.take(k)) <= value(digits),
        0 <= value(digits),
    decreases digits.len(),
{
    if digits.len() > 0 {
        let front = digits.drop_last();
        assert(is_digit(digits.last()));
        assert forall|i: int| 0 <= i < front.len() implies is_digit(#[trigger] front[i]) by {
            assert(front[i] == digits[i]);
        }
        if k < digits.len() {
            lemma_value_grows(front, k);
            assert(front.take(k) == digits.take(k));
        } else {
            lemma_value_grows(front, front.len() as int);
            assert(digits.take(k) == digits);
        }
    } else {
        assert(digits.take(k) == digits);
    }
}

} // verus!
