use vstd::prelude::*;
use crate::config_analysis::chars_of;
use crate::trail_terminal::{is_white_space, trimmed_end};

verus! {

broadcast use vstd::string::group_string_axioms;

/// The text without the whitespace at its start.
pub open spec fn trimmed_start(text: Seq<char>) -> Seq<char>
    decreases text.len(),
{
    if text.len() > 0 && is_white_space(text[0]) {
        trimmed_start(text.drop_first())
    } else {
        text
    }
}

/// The text without the whitespace at either end.
pub open spec fn trimmed(text: Seq<char>) -> Seq<char> {
    trimmed_start(trimmed_end(text))
}

/// Calls std's `str::trim` and copies the result into a `String`. Its
/// documentation says that it returns the text with leading and trailing
/// whitespace removed, whitespace being what Unicode's `White_Space` property
/// names; the contract says that.
#[verifier::external_body]
fn trim(text: &String) -> (r: String)
    ensures
        r@ == trimmed(text@),
{
    text.as_str().trim().to_string()
}

/// Whether a character is a decimal digit.
pub open spec fn is_digit(c: char) -> bool {
    '0' <= c <= '9'
}

/// The number that a string of decimal digits writes.
pub open spec fn digits_value(s: Seq<char>) -> nat
    decreases s.len(),
{
    if s.len() == 0 {
        0
    } else {
        digits_value(s.drop_last()) * 10 + (s.last() as nat - '0' as nat) as nat
    }
}

/// Whether every character is a decimal digit.
pub open spec fn all_digits(s: Seq<char>) -> bool {
    forall|i: int| 0 <= i < s.len() ==> is_digit(#[trigger] s[i])
}

/// The text without one leading `+`, if it has one.
pub open spec fn unsigned_body(s: Seq<char>) -> Seq<char> {
    if s.len() > 0 && s[0] == '+' {
        s.drop_first()
    } else {
        s
    }
}

/// What reading a text as a `usize` gives: an optional `+` followed by at
/// least one decimal digit and nothing else, whose value fits; none otherwise.
pub open spec fn parsed_usize(s: Seq<char>) -> Option<usize> {
    let body = unsigned_body(s);
    if body.len() > 0 && all_digits(body) && digits_value(body) <= usize::MAX {
        Some(digits_value(body) as usize)
    } else {
        None
    }
}

proof fn lemma_digits_value_grows(s: Seq<char>, k: int)
    requires
        0 <= k <= s.len(),
        all_digits(s),
    ensures
        digits_value(s.take(k)) <= digits_value(s),
    decreases s.len() - k,
{
    if k < s.len() {
        lemma_digits_value_grows(s, k + 1);
        assert(s.take(k + 1).drop_last() =~= s.take(k));
    } else {
        assert(s.take(k) =~= s);
    }
}

/// Reads a text as a `usize` in decimal, as std's `str::parse` does.
pub fn parse_usize(s: &String) -> (r: Option<usize>)
    ensures
        r == parsed_usize(s@),
{
    let chars = chars_of(s.as_str());
    let n = chars.len();
    let mut start: usize = 0;
    if n > 0 && chars[0] == '+' {
        start = 1;
    }
    let ghost body = unsigned_body(s@);
    assert(body =~= s@.subrange(start as int, n as int));
    if start == n {
        return None;
    }
    let mut value: usize = 0;
    let mut i: usize = start;
    while i < n
        invariant
            start <= i <= n,
            n == s@.len(),
            chars@ == s@,
            body == unsigned_body(s@),
            body =~= s@.subrange(start as int, n as int),
            forall|k: int| 0 <= k < i - start ==> is_digit(#[trigger] body[k]),
            value == digits_value(body.take(i - start)),
        decreases n - i,
    {
        let c = chars[i];
        assert(c == body[i - start]);
        if !('0' <= c && c <= '9') {
            assert(!all_digits(body));
            return None;
        }
        assert(body.take(i + 1 - start).drop_last() =~= body.take(i - start));
        let d: usize = (c as u32 - '0' as u32) as usize;
        assert(body.take(i + 1 - start).last() == c);
        assert(digits_value(body.take(i + 1 - start)) == value * 10 + d);
        if value > (usize::MAX - d) / 10 {
            proof {
                assert(digits_value(body.take(i + 1 - start)) > usize::MAX) by (nonlinear_arith)
                    requires
                        digits_value(body.take(i + 1 - start)) == value * 10 + d,
                        value > (usize::MAX - d) / 10,
                        d <= 9,
                ;
                if all_digits(body) {
                    lemma_digits_value_grows(body, i + 1 - start);
                }
            }
            return None;
        }
        assert(value * 10 + d <= usize::MAX) by (nonlinear_arith)
            requires
                value <= (usize::MAX - d) / 10,
                d <= 9,
        ;
        value = value * 10 + d;
        i += 1;
    }
    assert(body.take(n - start) =~= body);
    Some(value)
}

/// A choice of the client's menu.
#[derive(Debug, Clone, Copy, PartialEq, Eq, Structural)]
pub enum MenuChoice {
    /// Submit one job and follow it.
    SubmitOne,
    /// Submit jobs from several files and list their results.
    SubmitMany,
    /// Show a contest's rank list.
    RankList,
    /// Register a user.
    NewUser,
}

/// Reads the menu line: `1` to `4`, around which whitespace is ignored; none
/// for anything else.
pub fn menu_choice(line: &String) -> (r: Option<MenuChoice>)
    ensures
        r == (if trimmed(line@) == "1"@ {
            Some(MenuChoice::SubmitOne)
        } else if trimmed(line@) == "2"@ {
            Some(MenuChoice::SubmitMany)
        } else if trimmed(line@) == "3"@ {
            Some(MenuChoice::RankList)
        } else if trimmed(line@) == "4"@ {
            Some(MenuChoice::NewUser)
        } else {
            None
        }),
{
    let t = trim(line);
    if t == String::from_str("1") {
        Some(MenuChoice::SubmitOne)
    } else if t == String::from_str("2") {
        Some(MenuChoice::SubmitMany)
    } else if t == String::from_str("3") {
        Some(MenuChoice::RankList)
    } else if t == String::from_str("4") {
        Some(MenuChoice::NewUser)
    } else {
        None
    }
}

/// Reads a line of a file list: the file name without surrounding
/// whitespace, or none for a blank line, which ends the list.
pub fn entered_file_name(line: &String) -> (r: Option<String>)
    ensures
        trimmed(line@).len() == 0 ==> r is None,
        trimmed(line@).len() > 0 ==> (r matches Some(name) && name@ == trimmed(line@)),
{
    let t = trim(line);
    if t.as_str().unicode_len() == 0 {
        None
    } else {
        Some(t)
    }
}

/// Reads the contest whose rank list is asked for: the number on the line,
/// around which whitespace is ignored, or 1000000 when the line holds no
/// number.
pub fn contest_choice(line: &String) -> (r: usize)
    ensures
        r == (match parsed_usize(trimmed(line@)) {
            Some(n) => n,
            None => 1000000usize,
        }),
{
    let t = trim(line);
    match parse_usize(&t) {
        Some(n) => n,
        None => 1000000,
    }
}

} // verus!
