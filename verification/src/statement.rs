//! Lines of text made into statements and commands.

use vstd::utf8::encode_utf8;
use vstd::prelude::*;
use vstd::string::{StrSliceExecFns, StringSliceAdditionalSpecFns};
use crate::datastore::{EMAIL_SIZE, Row, RowView, Table, USERNAME_SIZE};

verus! {

/// What a statement asks of the table.
#[derive(Clone, Copy, Debug, PartialEq, Eq, Structural)]
pub enum StatementType {
    Insert,
    Select,
}

/// A statement ready to run: its kind and, for an insert, the row.
#[derive(Debug)]
pub struct Statement {
    pub statement_type: StatementType,
    pub row_to_insert: Option<Row>,
}

/// What became of a line of text that should be a statement.
#[derive(Debug)]
pub enum PrepareResult {
    Success(Statement),
    UnrecognizedStatement,
    SyntaxError,
    NegativeId,
    StringTooLong,
}

/// What became of a line of text that should be a command to the program.
#[derive(Clone, Copy, Debug, PartialEq, Eq, Structural)]
pub enum MetaCommand {
    /// The table was closed; the program is to end.
    Success,
    UnrecognizedCommand,
}

/// The groups that a regular expression captures in a text, by number, the
/// whole match being group 0, each with the text it matched or `None` where
/// it took no part; `None` where the pattern is no regular expression or
/// the text has no match.
pub uninterp spec fn regex_groups(pattern: Seq<char>, text: Seq<char>) -> Option<
    Seq<Option<Seq<char>>>,
>;

/// What a list of captured groups holds.
pub open spec fn groups_view(groups: Seq<Option<String>>) -> Seq<Option<Seq<char>>> {
    Seq::new(
        groups.len(),
        |i: int|
            match groups[i] {
                Some(s) => Some(s@),
                None => None,
            },
    )
}

/// `regex::Regex::new` on `pattern`, then `Regex::captures` on `text`: the
/// captured groups as `regex_groups` names them. Nothing is claimed of what
/// they are.
#[verifier::external_body]
fn regex_captures(pattern: &str, text: &str) -> (r: Option<Vec<Option<String>>>)
    ensures
        match r {
            Some(groups) => regex_groups(pattern@, text@) == Some(groups_view(groups@)),
            None => regex_groups(pattern@, text@) is None,
        },
{
    let re = match regex::Regex::new(pattern) {
        Ok(re) => re,
        Err(_) => return None,
    };
    match re.captures(text) {
        Some(caps) => Some(
            (0..caps.len()).map(|i| caps.get(i).map(|m| m.as_str().to_string())).collect(),
        ),
        None => None,
    }
}

/// Whether `text` starts with `prefix`.
pub open spec fn starts(text: Seq<char>, prefix: Seq<char>) -> bool {
    prefix.len() <= text.len() && text.subrange(0, prefix.len() as int) == prefix
}

/// Whether `text` starts with `prefix`.
pub fn has_prefix(text: &str, prefix: &str) -> (r: bool)
    ensures
        r == starts(text@, prefix@),
{
    let n = prefix.unicode_len();
    if n > text.unicode_len() {
        return false;
    }
    let mut i: usize = 0;
    while i < n
        invariant
            i <= n,
            n == prefix@.len(),
            n <= text@.len(),
            text@.subrange(0, i as int) == prefix@.subrange(0, i as int),
        decreases n - i,
    {
        if text.get_char(i) != prefix.get_char(i) {
            assert(text@.subrange(0, n as int)[i as int] != prefix@[i as int]);
            return false;
        }
        i += 1;
        assert(text@.subrange(0, i as int) =~= text@.subrange(0, i - 1).push(text@[i - 1]));
        assert(prefix@.subrange(0, i as int) =~= prefix@.subrange(0, i - 1).push(prefix@[i - 1]));
    }
    assert(prefix@.subrange(0, n as int) =~= prefix@);
    true
}

/// The value of a decimal digit; `None` for any other character.
pub open spec fn digit(c: char) -> Option<nat> {
    if '0' <= c <= '9' {
        Some((c as u32 - '0' as u32) as nat)
    } else {
        None
    }
}

/// Whether every character is a decimal digit.
pub open spec fn all_digits(chars: Seq<char>) -> bool {
    forall|i: int| 0 <= i < chars.len() ==> digit(#[trigger] chars[i]) is Some
}

/// The number that decimal digits write.
pub open spec fn digits_value(chars: Seq<char>) -> nat
    decreases chars.len(),
{
    if chars.len() == 0 {
        0
    } else {
        digits_value(chars.drop_last()) * 10 + digit(chars.last())->0
    }
}

/// The 32-bit number that a text writes: one decimal digit or more, after a
/// `+` or nothing, of a value that fits; `None` for any other text.
pub open spec fn decimal_u32(chars: Seq<char>) -> Option<u32> {
    let digits = if chars.len() > 0 && chars[0] == '+' {
        chars.drop_first()
    } else {
        chars
    };
    if digits.len() > 0 && all_digits(digits) && digits_value(digits) <= u32::MAX {
        Some(digits_value(digits) as u32)
    } else {
        None
    }
}

/// The number that digits write is at least the number that the first of
/// them write.
pub proof fn lemma_digits_grow(chars: Seq<char>, n: int)
    requires
        0 <= n <= chars.len(),
    ensures
        digits_value(chars.subrange(0, n)) <= digits_value(chars),
    decreases chars.len() - n,
{
    if n < chars.len() {
        lemma_digits_grow(chars, n + 1);
        assert(chars.subrange(0, n + 1).drop_last() =~= chars.subrange(0, n));
    } else {
        assert(chars.subrange(0, n) =~= chars);
    }
}

/// The 32-bit number that `text` writes, as `decimal_u32` says.
pub fn parse_u32(text: &str) -> (r: Option<u32>)
    ensures
        r == decimal_u32(text@),
{
    let n = text.unicode_len();
    if n == 0 {
        return None;
    }
    let start: usize = if text.get_char(0) == '+' {
        1
    } else {
        0
    };
    if start == n {
        return None;
    }
    let ghost digits = text@.subrange(start as int, n as int);
    proof {
        if start == 1 {
            assert(digits =~= text@.drop_first());
        } else {
            assert(digits =~= text@);
        }
    }
    let mut value: u64 = 0;
    let mut i: usize = start;
    while i < n
        invariant
            start <= i <= n,
            start < n,
            n == text@.len(),
            digits == text@.subrange(start as int, n as int),
            digits == if text@.len() > 0 && text@[0] == '+' {
                text@.drop_first()
            } else {
                text@
            },
            all_digits(digits.subrange(0, i - start)),
            value == digits_value(digits.subrange(0, i - start)),
            value <= u32::MAX,
        decreases n - i,
    {
        let c = text.get_char(i);
        assert(c == digits[i - start]);
        if c < '0' || c > '9' {
            assert(digit(digits[i - start]) is None);
            return None;
        }
        let d: u64 = (c as u32 - '0' as u32) as u64;
        let next: u64 = value * 10 + d;
        proof {
            let upto = digits.subrange(0, i + 1 - start);
            assert(upto.drop_last() =~= digits.subrange(0, i - start));
            assert(upto.last() == c);
            assert(digits_value(upto) == next);
            assert forall|j: int| 0 <= j < upto.len() implies digit(#[trigger] upto[j]) is Some by {
                if j < upto.len() - 1 {
                    assert(upto[j] == digits.subrange(0, i - start)[j]);
                }
            }
            if next > u32::MAX {
                lemma_digits_grow(digits, i + 1 - start);
            }
        }
        if next > 0xFFFF_FFFF {
            return None;
        }
        value = next;
        i += 1;
    }
    assert(digits.subrange(0, n - start) =~= digits);
    Some(value as u32)
}

/// What a prepared statement holds.
pub enum PrepareView {
    Insert(RowView),
    Select,
    UnrecognizedStatement,
    SyntaxError,
    NegativeId,
    StringTooLong,
}

impl View for PrepareResult {
    type V = PrepareView;

    open spec fn view(&self) -> PrepareView {
        match *self {
            PrepareResult::Success(s) => match s.statement_type {
                StatementType::Insert => match s.row_to_insert {
                    Some(row) => PrepareView::Insert(row@),
                    None => PrepareView::SyntaxError,
                },
                StatementType::Select => PrepareView::Select,
            },
            PrepareResult::UnrecognizedStatement => PrepareView::UnrecognizedStatement,
            PrepareResult::SyntaxError => PrepareView::SyntaxError,
            PrepareResult::NegativeId => PrepareView::NegativeId,
            PrepareResult::StringTooLong => PrepareView::StringTooLong,
        }
    }
}

/// The statement that the captured groups of an insert make: a syntax
/// error unless the groups 1 to 3 are there; `NegativeId` where group 1
/// writes no 32-bit number; `StringTooLong` where group 2 has more than 32
/// bytes or group 3 more than 255; else the insert of the row of the three.
pub open spec fn insert_of_groups(groups: Seq<Option<Seq<char>>>) -> PrepareView {
    if groups.len() < 4 || groups[1] is None || groups[2] is None || groups[3] is None {
        PrepareView::SyntaxError
    } else if decimal_u32(groups[1]->0) is None {
        PrepareView::NegativeId
    } else if encode_utf8(groups[2]->0).len() > USERNAME_SIZE || encode_utf8(groups[3]->0).len()
        > EMAIL_SIZE {
        PrepareView::StringTooLong
    } else {
        PrepareView::Insert(
            RowView {
                id: decimal_u32(groups[1]->0)->0,
                username: groups[2]->0,
                email: groups[3]->0,
            },
        )
    }
}

/// The statement that the captured groups of an insert make, as
/// `insert_of_groups` says.
pub fn statement_of_groups(groups: Vec<Option<String>>) -> (r: PrepareResult)
    ensures
        r@ == insert_of_groups(groups_view(groups@)),
{
    if groups.len() < 4 {
        return PrepareResult::SyntaxError;
    }
    let ghost view = groups_view(groups@);
    let id: u32 = match &groups[1] {
        Some(text) => {
            assert(view[1] == Some(text@));
            match parse_u32(text.as_str()) {
                Some(id) => id,
                None => {
                    if groups[2].is_none() || groups[3].is_none() {
                        assert(view[2] is None || view[3] is None);
                        return PrepareResult::SyntaxError;
                    }
                    return PrepareResult::NegativeId;
                },
            }
        },
        None => {
            assert(view[1] is None);
            return PrepareResult::SyntaxError;
        },
    };
    let username = match &groups[2] {
        Some(user) => {
            assert(view[2] == Some(user@));
            user.clone()
        },
        None => {
            assert(view[2] is None);
            return PrepareResult::SyntaxError;
        },
    };
    let email = match &groups[3] {
        Some(e) => {
            assert(view[3] == Some(e@));
            e.clone()
        },
        None => {
            assert(view[3] is None);
            return PrepareResult::SyntaxError;
        },
    };
    if username.as_str().as_bytes().len() > USERNAME_SIZE {
        return PrepareResult::StringTooLong;
    }
    if email.as_str().as_bytes().len() > EMAIL_SIZE {
        return PrepareResult::StringTooLong;
    }
    PrepareResult::Success(
        Statement {
            statement_type: StatementType::Insert,
            row_to_insert: Some(Row { id, username, email }),
        },
    )
}

/// The pattern of an insert: the word, a number, a name of word characters,
/// and an address of word characters, `@` and dots.
pub open spec fn insert_pattern() -> Seq<char> {
    "^insert (-?\\d+) (\\w+) ([\\w@\\.]+)"@
}

/// The statement that a line of text makes, given the groups that the
/// pattern of an insert captures in it: an insert where the line starts
/// with `insert`, a select where it starts with `select`, else none.
pub open spec fn prepared(
    text: Seq<char>,
    groups: Option<Seq<Option<Seq<char>>>>,
) -> PrepareView {
    if starts(text, "insert"@) {
        match groups {
            Some(g) => insert_of_groups(g),
            None => PrepareView::SyntaxError,
        }
    } else if starts(text, "select"@) {
        PrepareView::Select
    } else {
        PrepareView::UnrecognizedStatement
    }
}

/// The statement that a line of text makes.
pub fn prepare_statement(statement: &str) -> (r: PrepareResult)
    ensures
        r@ == prepared(statement@, regex_groups(insert_pattern(), statement@)),
{
    if has_prefix(statement, "insert") {
        match regex_captures("^insert (-?\\d+) (\\w+) ([\\w@\\.]+)", statement) {
            Some(groups) => statement_of_groups(groups),
            None => PrepareResult::SyntaxError,
        }
    } else if has_prefix(statement, "select") {
        PrepareResult::Success(
            Statement { statement_type: StatementType::Select, row_to_insert: None },
        )
    } else {
        PrepareResult::UnrecognizedStatement
    }
}

/// Runs a command to the program: `.exit` closes the table, after which
/// the program is to end; any other is not recognized.
pub fn do_meta_command(command: &str, table: &mut Table) -> (r: MetaCommand)
    requires
        old(table).wf(),
    ensures
        final(table).wf(),
        r == if starts(command@, ".exit"@) {
            MetaCommand::Success
        } else {
            MetaCommand::UnrecognizedCommand
        },
        if starts(command@, ".exit"@) {
            &&& final(table).tree().pager().image() == old(table).tree().pager().flushed_image()
            &&& old(table).is_table() ==> final(table).is_table() && final(table).rows() == old(
                table,
            ).rows()
        } else {
            *final(table) == *old(table)
        },
{
    if has_prefix(command, ".exit") {
        table.close();
        MetaCommand::Success
    } else {
        MetaCommand::UnrecognizedCommand
    }
}

} // verus!
