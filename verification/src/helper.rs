//! The command language that drives a cache: one command per line, fields
//! separated by single spaces.

use crate::lfu::{LFUCache, MISS};
use crate::model::CacheView;
use vstd::prelude::*;

verus! {

/// One command of the language.
#[derive(Clone, Copy, Debug, PartialEq, Eq)]
pub enum Command {
    /// Replace the cache by an empty one of the given capacity.
    Create(i32),
    /// Store a value under a key.
    Insert(i32, i32),
    /// Look a key up.
    Get(i32),
    /// Show the state of the cache.
    Show,
    /// Drop every entry.
    Clear,
    /// Leave.
    Exit,
    /// Anything that is no command, or a command that lacks an argument:
    /// the summary of commands is wanted.
    Help,
    /// A command whose argument is no number in range.
    Malformed,
}

/// What the caller has to do after a command has been handled.
#[derive(Clone, Copy, Debug, PartialEq, Eq)]
pub enum Reply {
    /// Nothing.
    Quiet,
    /// Print the value that the lookup gave, `MISS` for a miss.
    Value(i32),
    /// Print the state of the cache.
    State,
    /// Print the summary of commands.
    Help,
    /// End the program.
    Exit,
    /// Report that the line holds an argument that is no number in range.
    Malformed,
}

/// The summary of commands, as it is printed.
pub const HELP: &'static str = "
create [capacity]          create LFUCache holder with given capacity
insert [key] [value]          insert value by key
get [key]                  extract value by key; returns -1 in case of wrong key
clear                      remove all values from cache
exit                       close program
";

/// The summary of commands.
pub fn commands() -> (text: String)
    ensures
        text@ == HELP@,
{
    HELP.to_owned()
}

/// White space as `char::is_whitespace` has it.
pub open spec fn is_space(c: char) -> bool {
    let n = c as u32;
    ||| 0x9 <= n <= 0xd
    ||| n == 0x20
    ||| n == 0x85
    ||| n == 0xa0
    ||| n == 0x1680
    ||| 0x2000 <= n <= 0x200a
    ||| n == 0x2028
    ||| n == 0x2029
    ||| n == 0x202f
    ||| n == 0x205f
    ||| n == 0x3000
}

/// Where the field that starts at `from` ends: at the next space, or at the
/// end of the line.
pub open spec fn field_end(line: Seq<char>, from: int) -> int
    decreases line.len() - from,
{
    if from >= line.len() || line[from] == ' ' {
        from
    } else {
        field_end(line, from + 1)
    }
}

/// Where the `n`-th field starts, if the line has that many fields.
pub open spec fn field_start(line: Seq<char>, n: nat) -> Option<int>
    decreases n,
{
    if n == 0 {
        Some(0)
    } else {
        match field_start(line, (n - 1) as nat) {
            Some(from) => if field_end(line, from) < line.len() {
                Some(field_end(line, from) + 1)
            } else {
                None
            },
            None => None,
        }
    }
}

/// The `n`-th of the fields that single spaces separate.
pub open spec fn field(line: Seq<char>, n: nat) -> Option<Seq<char>> {
    match field_start(line, n) {
        Some(from) => Some(line.subrange(from, field_end(line, from))),
        None => None,
    }
}

/// The number of white-space characters at the start of `text`.
pub open spec fn lead(text: Seq<char>) -> int
    decreases text.len(),
{
    if text.len() == 0 || !is_space(text[0]) {
        0
    } else {
        1 + lead(text.drop_first())
    }
}

/// The length of `text` without the white space at its end.
pub open spec fn tail(text: Seq<char>) -> int
    decreases text.len(),
{
    if text.len() == 0 || !is_space(text[text.len() - 1]) {
        text.len() as int
    } else {
        tail(text.drop_last())
    }
}

/// `text` without the white space at its start and at its end.
pub open spec fn trimmed(text: Seq<char>) -> Seq<char> {
    if lead(text) >= tail(text) {
        Seq::empty()
    } else {
        text.subrange(lead(text), tail(text))
    }
}

/// Whether `c` is one of the ten decimal digits.
pub open spec fn is_digit(c: char) -> bool {
    '0' <= c <= '9'
}

/// The number that a row of decimal digits denotes.
pub open spec fn digits_value(digits: Seq<char>) -> int
    decreases digits.len(),
{
    if digits.len() == 0 {
        0
    } else {
        digits_value(digits.drop_last()) * 10 + (digits[digits.len() - 1] as u32 - '0' as u32)
    }
}

/// Whether `text` is a row of decimal digits.
pub open spec fn all_digits(text: Seq<char>) -> bool {
    forall|i: int| 0 <= i < text.len() ==> is_digit(#[trigger] text[i])
}

/// The number that `text` denotes: an optional sign and at least one
/// decimal digit, with a value that a signed 32-bit integer can hold.
pub open spec fn number(text: Seq<char>) -> Option<int> {
    let signed = text.len() > 0 && (text[0] == '-' || text[0] == '+');
    let digits = if signed {
        text.drop_first()
    } else {
        text
    };
    let value = if text.len() > 0 && text[0] == '-' {
        -digits_value(digits)
    } else {
        digits_value(digits)
    };
    if digits.len() > 0 && all_digits(digits) && i32::MIN <= value <= i32::MAX {
        Some(value)
    } else {
        None
    }
}

/// The number that a field denotes once the white space around it is gone.
pub open spec fn argument(line: Seq<char>, n: nat) -> Option<int> {
    number(trimmed(field(line, n).unwrap()))
}

/// The command that a line holds.
pub open spec fn command_of(line: Seq<char>) -> Command {
    let word = field(line, 0).unwrap();
    if word == "create"@ {
        if field(line, 1).is_none() {
            Command::Help
        } else if argument(line, 1).is_some() && argument(line, 1).unwrap() >= 0 {
            Command::Create(argument(line, 1).unwrap() as i32)
        } else {
            Command::Malformed
        }
    } else if word == "insert"@ {
        if field(line, 1).is_none() || field(line, 2).is_none() {
            Command::Help
        } else if argument(line, 1).is_some() && argument(line, 2).is_some() {
            Command::Insert(argument(line, 1).unwrap() as i32, argument(line, 2).unwrap() as i32)
        } else {
            Command::Malformed
        }
    } else if word == "get"@ {
        if field(line, 1).is_none() {
            Command::Help
        } else if argument(line, 1).is_some() {
            Command::Get(argument(line, 1).unwrap() as i32)
        } else {
            Command::Malformed
        }
    } else if word == "show\n"@ {
        Command::Show
    } else if word == "clear\n"@ {
        Command::Clear
    } else if word == "exit\n"@ {
        Command::Exit
    } else {
        Command::Help
    }
}

/// The state of a cache after a command.
pub open spec fn state_after(before: CacheView, command: Command) -> CacheView {
    match command {
        Command::Create(capacity) => CacheView::fresh(capacity as nat),
        Command::Insert(key, value) => before.put(key, value),
        Command::Get(key) => before.get(key),
        Command::Clear => before.clear(),
        _ => before,
    }
}

/// What the caller is told after a command.
pub open spec fn reply_to(before: CacheView, command: Command) -> Reply {
    match command {
        Command::Create(_) => Reply::Quiet,
        Command::Insert(_, _) => Reply::Quiet,
        Command::Get(key) => Reply::Value(
            match before.answer(key) {
                Some(value) => value,
                None => MISS,
            },
        ),
        Command::Show => Reply::State,
        Command::Clear => Reply::Quiet,
        Command::Exit => Reply::Exit,
        Command::Help => Reply::Help,
        Command::Malformed => Reply::Malformed,
    }
}

/// `lead` is the place of the first character that is no white space.
proof fn lemma_lead_is(text: Seq<char>, at: int)
    requires
        0 <= at <= text.len(),
        forall|i: int| 0 <= i < at ==> is_space(#[trigger] text[i]),
        at < text.len() ==> !is_space(text[at]),
    ensures
        lead(text) == at,
    decreases text.len(),
{
    if text.len() == 0 || !is_space(text[0]) {
        if at > 0 {
            assert(is_space(text[0]));
        }
    } else {
        let rest = text.drop_first();
        assert forall|i: int| 0 <= i < at - 1 implies is_space(#[trigger] rest[i]) by {
            assert(rest[i] == text[i + 1]);
        }
        if at - 1 < rest.len() {
            assert(rest[at - 1] == text[at]);
        }
        lemma_lead_is(rest, at - 1);
    }
}

/// `tail` is the place behind the last character that is no white space.
proof fn lemma_tail_is(text: Seq<char>, at: int)
    requires
        0 <= at <= text.len(),
        forall|i: int| at <= i < text.len() ==> is_space(#[trigger] text[i]),
        at > 0 ==> !is_space(text[at - 1]),
    ensures
        tail(text) == at,
    decreases text.len(),
{
    if text.len() == 0 || !is_space(text[text.len() - 1]) {
        if at < text.len() {
            assert(is_space(text[text.len() - 1]));
        }
    } else {
        let rest = text.drop_last();
        assert forall|i: int| at <= i < rest.len() implies is_space(#[trigger] rest[i]) by {
            assert(rest[i] == text[i]);
        }
        if at > 0 {
            assert(rest[at - 1] == text[at - 1]);
        }
        lemma_tail_is(rest, at);
    }
}

/// A row of digits denotes no negative number.
proof fn lemma_digits_not_negative(digits: Seq<char>)
    requires
        all_digits(digits),
    ensures
        digits_value(digits) >= 0,
    decreases digits.len(),
{
    if digits.len() > 0 {
        let rest = digits.drop_last();
        assert forall|i: int| 0 <= i < rest.len() implies is_digit(#[trigger] rest[i]) by {
            assert(rest[i] == digits[i]);
        }
        lemma_digits_not_negative(rest);
        assert(is_digit(digits[digits.len() - 1]));
    }
}

/// A row of digits denotes no less than any of its beginnings.
proof fn lemma_digits_grow(digits: Seq<char>, n: int)
    requires
        all_digits(digits),
        0 <= n <= digits.len(),
    ensures
        digits_value(digits.take(n)) <= digits_value(digits),
    decreases digits.len(),
{
    if n == digits.len() {
        assert(digits.take(n) =~= digits);
    } else {
        let rest = digits.drop_last();
        assert forall|i: int| 0 <= i < rest.len() implies is_digit(#[trigger] rest[i]) by {
            assert(rest[i] == digits[i]);
        }
        lemma_digits_grow(rest, n);
        lemma_digits_not_negative(rest);
        assert(rest.take(n) =~= digits.take(n));
        assert(is_digit(digits[digits.len() - 1]));
    }
}

/// The characters of a line of text.
fn characters(line: &str) -> (chars: Vec<char>)
    ensures
        chars@ == line@,
{
    let mut chars: Vec<char> = Vec::new();
    for c in it: line.chars()
        invariant
            it.seq() == line@,
            chars@ == it.seq().take(it.index()),
    {
        chars.push(c);
    }
    chars
}

/// Whether `c` is white space.
fn space(c: char) -> (b: bool)
    ensures
        b == is_space(c),
{
    let n = c as u32;
    (0x9 <= n && n <= 0xd) || n == 0x20 || n == 0x85 || n == 0xa0 || n == 0x1680 || (0x2000 <= n
        && n <= 0x200a) || n == 0x2028 || n == 0x2029 || n == 0x202f || n == 0x205f || n == 0x3000
}

/// Finds the end of the field that starts at `from`.
fn end_of_field(line: &Vec<char>, from: usize) -> (end: usize)
    requires
        from <= line.len(),
    ensures
        end as int == field_end(line@, from as int),
        from <= end <= line.len(),
{
    let mut i: usize = from;
    while i < line.len() && line[i] != ' '
        invariant
            from <= i <= line.len(),
            field_end(line@, from as int) == field_end(line@, i as int),
        decreases line.len() - i,
    {
        i += 1;
    }
    i
}

/// Copies the characters from `from` up to `to`.
fn slice(line: &Vec<char>, from: usize, to: usize) -> (part: Vec<char>)
    requires
        from <= to <= line.len(),
    ensures
        part@ == line@.subrange(from as int, to as int),
{
    let mut part: Vec<char> = Vec::new();
    let mut i: usize = from;
    while i < to
        invariant
            from <= i <= to <= line.len(),
            part@ == line@.subrange(from as int, i as int),
        decreases to - i,
    {
        part.push(line[i]);
        i += 1;
    }
    part
}

/// Whether `text` spells `word`.
fn spells(text: &Vec<char>, word: &str) -> (same: bool)
    ensures
        same == (text@ == word@),
{
    let letters = characters(word);
    if letters.len() != text.len() {
        return false;
    }
    let mut i: usize = 0;
    while i < text.len()
        invariant
            i <= text.len() == letters.len(),
            letters@ == word@,
            text@.take(i as int) == letters@.take(i as int),
        decreases text.len() - i,
    {
        if text[i] != letters[i] {
            return false;
        }
        assert(text@.take(i + 1) == text@.take(i as int).push(text@[i as int]));
        assert(letters@.take(i + 1) == letters@.take(i as int).push(letters@[i as int]));
        i += 1;
    }
    assert(text@.take(i as int) == text@);
    assert(letters@.take(i as int) == letters@);
    true
}

/// Strips the white space at both ends.
fn trim(text: &Vec<char>) -> (core: Vec<char>)
    ensures
        core@ == trimmed(text@),
{
    let mut from: usize = 0;
    while from < text.len() && space(text[from])
        invariant
            from <= text.len(),
            forall|i: int| 0 <= i < from ==> is_space(#[trigger] text@[i]),
        decreases text.len() - from,
    {
        from += 1;
    }
    let mut to: usize = text.len();
    while to > 0 && space(text[to - 1])
        invariant
            to <= text.len(),
            forall|i: int| to <= i < text.len() ==> is_space(#[trigger] text@[i]),
        decreases to,
    {
        to -= 1;
    }
    proof {
        lemma_lead_is(text@, from as int);
        lemma_tail_is(text@, to as int);
    }
    if from >= to {
        Vec::new()
    } else {
        slice(text, from, to)
    }
}

/// Reads a signed decimal number that fits 32 bits.
fn parse_number(text: &Vec<char>) -> (found: Option<i32>)
    ensures
        found.is_some() == number(text@).is_some(),
        found.is_some() ==> found.unwrap() as int == number(text@).unwrap(),
{
    let n = text.len();
    let negative = n > 0 && text[0] == '-';
    let signed = n > 0 && (text[0] == '-' || text[0] == '+');
    let start: usize = if signed {
        1
    } else {
        0
    };
    let ghost digits = if signed {
        text@.drop_first()
    } else {
        text@
    };
    if start == n {
        return None;
    }
    let mut value: i64 = 0;
    let mut i: usize = start;
    while i < n
        invariant
            start <= i <= n == text.len(),
            start as int == (if signed { 1int } else { 0int }),
            signed == (text@.len() > 0 && (text@[0] == '-' || text@[0] == '+')),
            digits == (if signed { text@.drop_first() } else { text@ }),
            all_digits(digits.take(i - start)),
            value as int == digits_value(digits.take(i - start)),
            0 <= value <= 0x8000_0000,
        decreases n - i,
    {
        let c = text[i];
        let ghost seen = digits.take(i - start);
        let ghost more = digits.take(i - start + 1);
        assert(more.drop_last() =~= seen);
        assert(more[more.len() - 1] == c);
        if !(c >= '0' && c <= '9') {
            assert(!is_digit(digits[i - start]));
            return None;
        }
        assert forall|k: int| 0 <= k < more.len() implies is_digit(#[trigger] more[k]) by {
            if k < seen.len() {
                assert(seen[k] == more[k]);
            }
        }
        let d: i64 = (c as u32 - '0' as u32) as i64;
        value = value * 10 + d;
        if value > 0x8000_0000 {
            proof {
                if all_digits(digits) {
                    lemma_digits_grow(digits, i - start + 1);
                }
            }
            return None;
        }
        i += 1;
    }
    assert(digits.take(i - start) =~= digits);
    let result: i64 = if negative {
        -value
    } else {
        value
    };
    if result > 0x7fff_ffff {
        None
    } else {
        Some(result as i32)
    }
}

/// Reads the number in the field that starts at `from`.
fn argument_at(line: &Vec<char>, from: usize) -> (found: Option<i32>)
    requires
        from <= line.len(),
    ensures
        found.is_some() == number(
            trimmed(line@.subrange(from as int, field_end(line@, from as int))),
        ).is_some(),
        found.is_some() ==> found.unwrap() as int == number(
            trimmed(line@.subrange(from as int, field_end(line@, from as int))),
        ).unwrap(),
{
    let to = end_of_field(line, from);
    let text = slice(line, from, to);
    let core = trim(&text);
    parse_number(&core)
}

/// Reads the command that a line holds.
pub fn parse(line: &str) -> (command: Command)
    ensures
        command == command_of(line@),
{
    let chars = characters(line);
    let n = chars.len();
    let end = end_of_field(&chars, 0);
    let word = slice(&chars, 0, end);
    proof {
        reveal_with_fuel(field_start, 3);
    }
    if spells(&word, "create") {
        if end == n {
            return Command::Help;
        }
        match argument_at(&chars, end + 1) {
            Some(capacity) => if capacity >= 0 {
                Command::Create(capacity)
            } else {
                Command::Malformed
            },
            None => Command::Malformed,
        }
    } else if spells(&word, "insert") {
        if end == n {
            return Command::Help;
        }
        let second = end_of_field(&chars, end + 1);
        if second == n {
            return Command::Help;
        }
        let key = argument_at(&chars, end + 1);
        let value = argument_at(&chars, second + 1);
        match (key, value) {
            (Some(key), Some(value)) => Command::Insert(key, value),
            _ => Command::Malformed,
        }
    } else if spells(&word, "get") {
        if end == n {
            return Command::Help;
        }
        match argument_at(&chars, end + 1) {
            Some(key) => Command::Get(key),
            None => Command::Malformed,
        }
    } else if spells(&word, "show\n") {
        Command::Show
    } else if spells(&word, "clear\n") {
        Command::Clear
    } else if spells(&word, "exit\n") {
        Command::Exit
    } else {
        Command::Help
    }
}

/// Handles one line of input: reads the command, applies it to the cache,
/// and says what the caller has to do.
pub fn handle_input(lfu_cache: &mut LFUCache, input: &str) -> (reply: Reply)
    requires
        old(lfu_cache).wf(),
    ensures
        final(lfu_cache).wf(),
        final(lfu_cache)@ == state_after(old(lfu_cache)@, command_of(input@)),
        reply == reply_to(old(lfu_cache)@, command_of(input@)),
{
    match parse(input) {
        Command::Create(capacity) => {
            *lfu_cache = LFUCache::new(capacity);
            Reply::Quiet
        },
        Command::Insert(key, value) => {
            lfu_cache.put(key, value);
            Reply::Quiet
        },
        Command::Get(key) => Reply::Value(lfu_cache.get(key)),
        Command::Show => Reply::State,
        Command::Clear => {
            lfu_cache.clear();
            Reply::Quiet
        },
        Command::Exit => Reply::Exit,
        Command::Help => Reply::Help,
        Command::Malformed => Reply::Malformed,
    }
}

} // verus!
