//! The commands of the text protocol, and how a line of input is read as
//! one.

use crate::bitboard::BitBoard;
use crate::player::Player;
use vstd::prelude::*;
use vstd::string::{StrSliceExecFns, StringExecFns};

verus! {

pub enum EngineOption {
    Turn(Player),
}

/// The command type that the user provided the engine with
pub enum CommandType {
    C4i,
    Exit,
    GoInfinite,
    Isready,
    Startpos,
    Stop,
    /// Search for this many microseconds.
    GoTime(u64),
    SetOption(EngineOption),
    /// The stones of Red, then those of Yellow.
    CustomPosition(BitBoard, BitBoard),
}

/// A user command
pub struct Command(CommandType);

impl View for Command {
    type V = CommandType;

    closed spec fn view(&self) -> CommandType {
        self.0
    }
}

impl Command {
    pub fn get_type(self) -> (r: CommandType)
        ensures
            r == self@,
    {
        self.0
    }
}

#[derive(Debug)]
pub enum CommandParseError {
    /// A number could not be read.
    IOError,
    /// The line ended where an argument was due.
    ExpectedArgument,
    /// The first word is no command.
    UnknownCommand(String),
    /// A later word is not one of those that may stand there.
    UnknownArgument(String),
}

impl CommandParseError {
    /// The error in words, as a warning reports it.
    pub open spec fn message_spec(self) -> Seq<char> {
        match self {
            CommandParseError::IOError => "unable to process user input correctly"@,
            CommandParseError::ExpectedArgument => "additional expected argument was not found"@,
            CommandParseError::UnknownCommand(word) => "invalid command: "@ + word@,
            CommandParseError::UnknownArgument(word) => "invalid argument: "@ + word@,
        }
    }

    pub fn message(&self) -> (r: String)
        ensures
            r@ == self.message_spec(),
    {
        match self {
            CommandParseError::IOError => "unable to process user input correctly".to_owned(),
            CommandParseError::ExpectedArgument => {
                "additional expected argument was not found".to_owned()
            },
            CommandParseError::UnknownCommand(word) => {
                "invalid command: ".to_owned().concat(word.as_str())
            },
            CommandParseError::UnknownArgument(word) => {
                "invalid argument: ".to_owned().concat(word.as_str())
            },
        }
    }
}

/// What a line of input is read as: a command, or the reason why it is none.
pub enum Parsed {
    Command(CommandType),
    IOError,
    ExpectedArgument,
    UnknownCommand(Seq<char>),
    UnknownArgument(Seq<char>),
}

/// The result of parsing as a value.
pub open spec fn parsed_view(r: Result<Command, CommandParseError>) -> Parsed {
    match r {
        Ok(command) => Parsed::Command(command@),
        Err(CommandParseError::IOError) => Parsed::IOError,
        Err(CommandParseError::ExpectedArgument) => Parsed::ExpectedArgument,
        Err(CommandParseError::UnknownCommand(word)) => Parsed::UnknownCommand(word@),
        Err(CommandParseError::UnknownArgument(word)) => Parsed::UnknownArgument(word@),
    }
}

/// Whether `c` has the Unicode property White_Space, as `char::is_whitespace`
/// tells.
pub uninterp spec fn white_space(c: char) -> bool;

/// `char::is_whitespace` tells whether a character has the property
/// White_Space; the same character gives the same answer.
pub assume_specification[ char::is_whitespace ](c: char) -> (r: bool)
    ensures
        r == white_space(c),
;

/// The end of the word that holds place `from` of `s`: the place of the
/// first white space at or after `from`, or the end of `s`.
pub open spec fn word_end(s: Seq<char>, from: int) -> int
    decreases s.len() - from,
{
    if from >= s.len() || white_space(s[from]) {
        from
    } else {
        word_end(s, from + 1)
    }
}

/// The words of `s` from place `from` on: the longest runs of characters
/// that are no white space, in order.
pub open spec fn words_from(s: Seq<char>, from: int) -> Seq<Seq<char>>
    decreases s.len() - from,
{
    if from >= s.len() || from < 0 {
        Seq::empty()
    } else if white_space(s[from]) {
        words_from(s, from + 1)
    } else {
        let end = word_end(s, from + 1);
        if from < end <= s.len() {
            seq![s.subrange(from, end)] + words_from(s, end)
        } else {
            Seq::empty()
        }
    }
}

/// The words of `s`.
pub open spec fn words_of(s: Seq<char>) -> Seq<Seq<char>> {
    words_from(s, 0)
}

/// Whether `c` is one of the digits `0` to `9`.
pub open spec fn is_digit(c: char) -> bool {
    '0' <= c <= '9'
}

/// The number that the decimal digits `s` stand for.
pub open spec fn digits_value(s: Seq<char>) -> nat
    decreases s.len(),
{
    if s.len() == 0 {
        0
    } else {
        (digits_value(s.drop_last()) * 10 + (s.last() as u32 - '0' as u32)) as nat
    }
}

/// The digits of a number word: the word without a leading `+`.
pub open spec fn digits_of(s: Seq<char>) -> Seq<char> {
    if s.len() > 0 && s[0] == '+' {
        s.skip(1)
    } else {
        s
    }
}

/// The number that the word `s` stands for: decimal digits, at least one,
/// after at most one `+`, with a value that fits in 64 bits.
pub open spec fn number(s: Seq<char>) -> Option<u64> {
    let digits = digits_of(s);
    if digits.len() > 0 && (forall|i: int| 0 <= i < digits.len() ==> is_digit(#[trigger] digits[i]))
        && digits_value(digits) <= u64::MAX {
        Some(digits_value(digits) as u64)
    } else {
        None
    }
}

/// What the words of a line are read as.
pub open spec fn parsed(words: Seq<Seq<char>>) -> Parsed {
    if words.len() == 0 {
        Parsed::ExpectedArgument
    } else if words[0] == "c4i"@ {
        Parsed::Command(CommandType::C4i)
    } else if words[0] == "exit"@ {
        Parsed::Command(CommandType::Exit)
    } else if words[0] == "stop"@ {
        Parsed::Command(CommandType::Stop)
    } else if words[0] == "go"@ {
        parsed_go(words)
    } else if words[0] == "isready"@ {
        Parsed::Command(CommandType::Isready)
    } else if words[0] == "position"@ {
        parsed_position(words)
    } else if words[0] == "setoption"@ {
        parsed_setoption(words)
    } else {
        Parsed::UnknownCommand(words[0])
    }
}

/// What a line that starts with `go` is read as.
pub open spec fn parsed_go(words: Seq<Seq<char>>) -> Parsed {
    if words.len() < 2 || words[1] == "infinite"@ {
        Parsed::Command(CommandType::GoInfinite)
    } else if words[1] == "time"@ {
        if words.len() < 3 {
            Parsed::ExpectedArgument
        } else {
            match number(words[2]) {
                Some(micros) => Parsed::Command(CommandType::GoTime(micros)),
                None => Parsed::IOError,
            }
        }
    } else {
        Parsed::UnknownArgument(words[1])
    }
}

/// What a line that starts with `position` is read as.
pub open spec fn parsed_position(words: Seq<Seq<char>>) -> Parsed {
    if words.len() < 2 {
        Parsed::ExpectedArgument
    } else if words[1] == "startpos"@ {
        Parsed::Command(CommandType::Startpos)
    } else if words[1] == "custom"@ {
        if words.len() < 3 {
            Parsed::ExpectedArgument
        } else {
            match number(words[2]) {
                None => Parsed::IOError,
                Some(red) => if words.len() < 4 {
                    Parsed::ExpectedArgument
                } else {
                    match number(words[3]) {
                        None => Parsed::IOError,
                        Some(yellow) => Parsed::Command(
                            CommandType::CustomPosition(BitBoard(red), BitBoard(yellow)),
                        ),
                    }
                },
            }
        }
    } else {
        Parsed::UnknownArgument(words[1])
    }
}

/// What a line that starts with `setoption` is read as.
pub open spec fn parsed_setoption(words: Seq<Seq<char>>) -> Parsed {
    if words.len() < 2 {
        Parsed::ExpectedArgument
    } else if words[1] == "turn"@ {
        if words.len() < 3 {
            Parsed::ExpectedArgument
        } else if words[2] == "red"@ {
            Parsed::Command(CommandType::SetOption(EngineOption::Turn(Player::Red)))
        } else if words[2] == "yellow"@ {
            Parsed::Command(CommandType::SetOption(EngineOption::Turn(Player::Yellow)))
        } else {
            Parsed::UnknownArgument(words[2])
        }
    } else {
        Parsed::UnknownArgument(words[1])
    }
}

/// The words `v` as values.
pub open spec fn word_views(v: Seq<String>) -> Seq<Seq<char>> {
    Seq::new(v.len(), |i: int| v[i]@)
}

proof fn lemma_word_end(s: Seq<char>, from: int, end: int)
    requires
        0 <= from <= end <= s.len(),
        forall|k: int| from <= k < end ==> !white_space(s[k]),
    ensures
        word_end(s, from) == word_end(s, end),
        end <= word_end(s, end) <= s.len(),
    decreases end - from,
{
    lemma_word_end_bounds(s, end);
    if from < end {
        lemma_word_end(s, from + 1, end);
    }
}

proof fn lemma_word_end_bounds(s: Seq<char>, from: int)
    requires
        0 <= from <= s.len(),
    ensures
        from <= word_end(s, from) <= s.len(),
    decreases s.len() - from,
{
    if from < s.len() && !white_space(s[from]) {
        lemma_word_end_bounds(s, from + 1);
    }
}

/// Splits `line` into its words.
pub fn words(line: &str) -> (r: Vec<String>)
    ensures
        word_views(r@) == words_of(line@),
{
    let n = line.unicode_len();
    let mut out: Vec<String> = Vec::new();
    let mut i: usize = 0;
    assert(word_views(out@) + words_from(line@, 0) =~= words_of(line@));
    while i < n
        invariant
            i <= n == line@.len(),
            word_views(out@) + words_from(line@, i as int) == words_of(line@),
        decreases n - i,
    {
        if line.get_char(i).is_whitespace() {
            i += 1;
        } else {
            let start = i;
            let mut end = i + 1;
            while end < n && !line.get_char(end).is_whitespace()
                invariant
                    start < end <= n == line@.len(),
                    forall|k: int| start <= k < end ==> !white_space(line@[k]),
                decreases n - end,
            {
                end += 1;
            }
            proof {
                lemma_word_end(line@, start + 1, end as int);
                assert(word_end(line@, end as int) == end);
            }
            let word = line.substring_char(start, end).to_owned();
            let ghost before = out@;
            out.push(word);
            proof {
                assert(word_views(out@) =~= word_views(before) + seq![
                    line@.subrange(start as int, end as int),
                ]);
                assert(word_views(out@) + words_from(line@, end as int) =~= word_views(before)
                    + words_from(line@, start as int));
            }
            i = end;
        }
    }
    assert(words_from(line@, n as int) =~= Seq::<Seq<char>>::empty());
    assert(word_views(out@) + Seq::<Seq<char>>::empty() =~= word_views(out@));
    out
}

proof fn lemma_digits_grow(s: Seq<char>, k: int)
    requires
        0 <= k <= s.len(),
        forall|i: int| 0 <= i < s.len() ==> is_digit(#[trigger] s[i]),
    ensures
        digits_value(s.take(k)) <= digits_value(s),
    decreases s.len() - k,
{
    if k < s.len() {
        lemma_digits_grow(s, k + 1);
        assert(s.take(k + 1).drop_last() =~= s.take(k));
    } else {
        assert(s.take(k) =~= s);
    }
}

/// Reads `token` as a number: decimal digits after at most one `+`.
pub fn parse_number(token: &str) -> (r: Option<u64>)
    ensures
        r == number(token@),
{
    let n = token.unicode_len();
    let start: usize = if n > 0 && token.get_char(0) == '+' {
        1
    } else {
        0
    };
    let ghost digits = digits_of(token@);
    if start == n {
        return None;
    }
    let mut value: u64 = 0;
    let mut i = start;
    assert(digits.take(0) =~= Seq::<char>::empty());
    while i < n
        invariant
            start <= i <= n == token@.len(),
            start <= 1,
            digits == digits_of(token@),
            digits.len() == n - start,
            forall|k: int| 0 <= k < digits.len() ==> #[trigger] digits[k] == token@[start + k],
            forall|k: int| 0 <= k < i - start ==> is_digit(#[trigger] digits[k]),
            value == digits_value(digits.take(i - start)),
        decreases n - i,
    {
        let c = token.get_char(i);
        if c < '0' || c > '9' {
            assert(!is_digit(digits[i - start]));
            return None;
        }
        let digit = (c as u32 - '0' as u32) as u64;
        proof {
            assert(digits.take(i - start + 1).drop_last() =~= digits.take(i - start));
            assert(digits.take(i - start + 1).last() == c);
            if forall|k: int| 0 <= k < digits.len() ==> is_digit(#[trigger] digits[k]) {
                lemma_digits_grow(digits, i - start + 1);
            }
        }
        let tenfold = match value.checked_mul(10) {
            Some(tenfold) => tenfold,
            None => {
                return None;
            },
        };
        value = match tenfold.checked_add(digit) {
            Some(sum) => sum,
            None => {
                return None;
            },
        };
        i += 1;
    }
    assert(digits.take(n - start) =~= digits);
    Some(value)
}

/// Whether `word` is the keyword `text`.
fn is_word(word: &String, text: &str) -> (r: bool)
    ensures
        r == (word@ == text@),
{
    *word == text.to_owned()
}

/// Reads the number at place `at` of `words`.
fn number_at(words: &Vec<String>, at: usize) -> (r: Result<u64, CommandParseError>)
    ensures
        at >= words@.len() ==> r matches Err(CommandParseError::ExpectedArgument),
        at < words@.len() ==> match number(words@[at as int]@) {
            Some(n) => r matches Ok(m) && m == n,
            None => r matches Err(CommandParseError::IOError),
        },
{
    if at >= words.len() {
        return Err(CommandParseError::ExpectedArgument);
    }
    match parse_number(words[at].as_str()) {
        Some(n) => Ok(n),
        None => Err(CommandParseError::IOError),
    }
}

/// Reads the words of a line as a command.
pub fn parse_words(words: &Vec<String>) -> (r: Result<Command, CommandParseError>)
    ensures
        parsed_view(r) == parsed(word_views(words@)),
{
    let ghost views = word_views(words@);
    if words.len() == 0 {
        return Err(CommandParseError::ExpectedArgument);
    }
    let first = &words[0];
    assert(views[0] == first@);
    if is_word(first, "c4i") {
        Ok(Command(CommandType::C4i))
    } else if is_word(first, "exit") {
        Ok(Command(CommandType::Exit))
    } else if is_word(first, "stop") {
        Ok(Command(CommandType::Stop))
    } else if is_word(first, "go") {
        if words.len() < 2 {
            return Ok(Command(CommandType::GoInfinite));
        }
        let second = &words[1];
        assert(views[1] == second@);
        if is_word(second, "infinite") {
            Ok(Command(CommandType::GoInfinite))
        } else if is_word(second, "time") {
            assert(words@.len() > 2 ==> views[2] == words@[2]@);
            match number_at(words, 2) {
                Ok(micros) => Ok(Command(CommandType::GoTime(micros))),
                Err(e) => Err(e),
            }
        } else {
            Err(CommandParseError::UnknownArgument(second.clone()))
        }
    } else if is_word(first, "isready") {
        Ok(Command(CommandType::Isready))
    } else if is_word(first, "position") {
        if words.len() < 2 {
            return Err(CommandParseError::ExpectedArgument);
        }
        let second = &words[1];
        assert(views[1] == second@);
        if is_word(second, "startpos") {
            Ok(Command(CommandType::Startpos))
        } else if is_word(second, "custom") {
            assert(words@.len() > 2 ==> views[2] == words@[2]@);
            assert(words@.len() > 3 ==> views[3] == words@[3]@);
            let red = match number_at(words, 2) {
                Ok(red) => red,
                Err(e) => {
                    return Err(e);
                },
            };
            let yellow = match number_at(words, 3) {
                Ok(yellow) => yellow,
                Err(e) => {
                    return Err(e);
                },
            };
            Ok(Command(CommandType::CustomPosition(BitBoard(red), BitBoard(yellow))))
        } else {
            Err(CommandParseError::UnknownArgument(second.clone()))
        }
    } else if is_word(first, "setoption") {
        if words.len() < 2 {
            return Err(CommandParseError::ExpectedArgument);
        }
        let second = &words[1];
        assert(views[1] == second@);
        if is_word(second, "turn") {
            if words.len() < 3 {
                return Err(CommandParseError::ExpectedArgument);
            }
            let third = &words[2];
            assert(views[2] == third@);
            if is_word(third, "red") {
                Ok(Command(CommandType::SetOption(EngineOption::Turn(Player::Red))))
            } else if is_word(third, "yellow") {
                Ok(Command(CommandType::SetOption(EngineOption::Turn(Player::Yellow))))
            } else {
                Err(CommandParseError::UnknownArgument(third.clone()))
            }
        } else {
            Err(CommandParseError::UnknownArgument(second.clone()))
        }
    } else {
        Err(CommandParseError::UnknownCommand(first.clone()))
    }
}

/// What a line that an engine wrote tells the referee.
#[derive(Clone, Copy, Debug, PartialEq, Eq, Structural)]
pub enum Reply {
    /// The line is no answer to a search.
    Other,
    /// The engine plays in this column.
    BestMove(usize),
    /// The line starts as an answer, but names no column.
    Broken,
}

/// Whether `word` starts with `prefix`.
pub open spec fn starts_with(word: Seq<char>, prefix: Seq<char>) -> bool {
    word.len() >= prefix.len() && word.take(prefix.len() as int) == prefix
}

/// What the line `s` tells: an answer where its first word starts with
/// `bestmove`, with the number that its second word stands for as the
/// column.
pub open spec fn reply_of(s: Seq<char>) -> Reply {
    let words = words_of(s);
    if words.len() == 0 || !starts_with(words[0], "bestmove"@) {
        Reply::Other
    } else if words.len() < 2 {
        Reply::Broken
    } else {
        match number(words[1]) {
            Some(column) => if column <= usize::MAX {
                Reply::BestMove(column as usize)
            } else {
                Reply::Broken
            },
            None => Reply::Broken,
        }
    }
}

fn has_prefix(word: &str, prefix: &str) -> (r: bool)
    ensures
        r == starts_with(word@, prefix@),
{
    let n = prefix.unicode_len();
    if word.unicode_len() < n {
        return false;
    }
    let mut i: usize = 0;
    while i < n
        invariant
            i <= n == prefix@.len(),
            n <= word@.len(),
            forall|k: int| 0 <= k < i ==> word@[k] == prefix@[k],
        decreases n - i,
    {
        if word.get_char(i) != prefix.get_char(i) {
            assert(word@.take(n as int)[i as int] != prefix@[i as int]);
            return false;
        }
        i += 1;
    }
    assert(word@.take(n as int) =~= prefix@);
    true
}

/// Reads a line that an engine wrote.
pub fn read_reply(line: &str) -> (r: Reply)
    ensures
        r == reply_of(line@),
{
    let words = words(line);
    assert(words@.len() > 0 ==> word_views(words@)[0] == words@[0]@);
    assert(words@.len() > 1 ==> word_views(words@)[1] == words@[1]@);
    if words.len() == 0 || !has_prefix(words[0].as_str(), "bestmove") {
        Reply::Other
    } else if words.len() < 2 {
        Reply::Broken
    } else {
        match parse_number(words[1].as_str()) {
            Some(column) => {
                if column <= usize::MAX as u64 {
                    Reply::BestMove(column as usize)
                } else {
                    Reply::Broken
                }
            },
            None => Reply::Broken,
        }
    }
}

/// The code of `c` with the capital letters `A` to `Z` taken for the small
/// ones.
pub open spec fn folded(c: char) -> u32 {
    if 'A' <= c <= 'Z' {
        (c as u32 + 32) as u32
    } else {
        c as u32
    }
}

/// Whether `a` and `b` are the same but for the case of the letters `a` to
/// `z`.
pub open spec fn same_ignoring_case(a: Seq<char>, b: Seq<char>) -> bool {
    a.len() == b.len() && forall|i: int| 0 <= i < a.len() ==> folded(a[i]) == folded(b[i])
}

/// Whether the line `s` confirms the protocol: whether it holds the one
/// word `c4iok`, in small or capital letters.
pub open spec fn handshake(s: Seq<char>) -> bool {
    words_of(s).len() == 1 && same_ignoring_case(words_of(s)[0], "c4iok"@)
}

fn fold(c: char) -> (r: u32)
    ensures
        r == folded(c),
{
    if c >= 'A' && c <= 'Z' {
        c as u32 + 32
    } else {
        c as u32
    }
}

/// Whether a line that an engine wrote confirms the protocol.
pub fn is_handshake(line: &str) -> (r: bool)
    ensures
        r == handshake(line@),
{
    let words = words(line);
    if words.len() != 1 {
        return false;
    }
    assert(word_views(words@)[0] == words@[0]@);
    let word = words[0].as_str();
    let expected = "c4iok";
    let n = expected.unicode_len();
    if word.unicode_len() != n {
        return false;
    }
    let mut i: usize = 0;
    while i < n
        invariant
            i <= n == expected@.len() == word@.len(),
            expected@ == "c4iok"@,
            words_of(line@).len() == 1,
            words_of(line@)[0] == word@,
            forall|k: int| 0 <= k < i ==> folded(word@[k]) == folded(expected@[k]),
        decreases n - i,
    {
        if fold(word.get_char(i)) != fold(expected.get_char(i)) {
            assert(folded(word@[i as int]) != folded(expected@[i as int]));
            return false;
        }
        i += 1;
    }
    true
}

/// Reads a line of input as a command.
pub fn parse_command(line: &str) -> (r: Result<Command, CommandParseError>)
    ensures
        parsed_view(r) == parsed(words_of(line@)),
{
    let words = words(line);
    parse_words(&words)
}

} // verus!
