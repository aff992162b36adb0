//! The moves of a human player, read from a line of text.

use crate::board::Point;
use crate::ActionType;
use regex::Regex;
use vstd::prelude::*;
use vstd::string::*;

verus! {

/// The groups of the first match of the regular expression `pattern` in
/// `input`: first the text of the whole match, then for each group of the
/// pattern the text that it matched, or `None` where it took no part. `None`
/// where nothing matches, or where `pattern` is no regular expression.
pub uninterp spec fn regex_first_groups(pattern: Seq<char>, input: Seq<char>) -> Option<
    Seq<Option<Seq<char>>>,
>;

/// The groups as sequences of characters.
pub open spec fn groups_view(groups: Option<Vec<Option<String>>>) -> Option<Seq<Option<Seq<char>>>> {
    match groups {
        None => None,
        Some(v) => Some(
            Seq::new(
                v.len() as nat,
                |i: int|
                    match v[i] {
                        None => None,
                        Some(s) => Some(s@),
                    },
            ),
        ),
    }
}

/// The groups of the first match of `pattern` in `input`: `Regex::new` of
/// the `regex` crate compiles the pattern, `captures_iter` finds the
/// matches in order, and `Captures::iter` hands out the groups of the first,
/// the whole match at their head. Taken for granted: what comes back depends
/// on the two texts alone.
#[verifier::external_body]
fn first_match_groups(pattern: &str, input: &str) -> (groups: Option<Vec<Option<String>>>)
    ensures
        groups_view(groups) == regex_first_groups(pattern@, input@),
{
    match Regex::new(pattern) {
        Ok(re) => re.captures_iter(input).next().map(
            |caps| caps.iter().map(|m| m.map(|m| m.as_str().to_string())).collect(),
        ),
        Err(_) => None,
    }
}

/// `c` is one of the digits `0` to `9`.
pub open spec fn is_digit(c: char) -> bool {
    '0' <= c && c <= '9'
}

/// Every character of `s` is a digit.
pub open spec fn all_digits(s: Seq<char>) -> bool {
    forall|i: int| 0 <= i < s.len() ==> is_digit(#[trigger] s[i])
}

/// The number that the digits of `s` write in base ten.
pub open spec fn decimal(s: Seq<char>) -> nat
    decreases s.len(),
{
    if s.len() == 0 {
        0
    } else {
        (decimal(s.drop_last()) * 10 + (s.last() as int - '0' as int)) as nat
    }
}

/// The number that `s` writes, where `s` is made of digits, at least one, and
/// the number is a `usize`.
pub open spec fn number_written(s: Seq<char>) -> Option<usize> {
    if s.len() > 0 && all_digits(s) && decimal(s) <= usize::MAX {
        Some(decimal(s) as usize)
    } else {
        None
    }
}

/// The number that starts a row of digits is no greater than the number of
/// the whole row.
proof fn lemma_decimal_prefix(s: Seq<char>, i: int)
    requires
        all_digits(s),
        0 <= i <= s.len(),
    ensures
        decimal(s.take(i)) <= decimal(s),
    decreases s.len() - i,
{
    if i < s.len() {
        lemma_decimal_prefix(s, i + 1);
        assert(s.take(i + 1).drop_last() =~= s.take(i));
        assert(is_digit(s[i]));
        assert(s.take(i + 1).last() == s[i]);
    } else {
        assert(s.take(i) =~= s);
    }
}

/// The number that `digits` writes in base ten; `None` where it holds
/// anything but digits, or nothing, or where the number is too large.
pub fn parse_number(digits: &str) -> (number: Option<usize>)
    ensures
        number == number_written(digits@),
{
    let n = digits.unicode_len();
    if n == 0 {
        return None;
    }
    let ghost s = digits@;
    let mut value: usize = 0;
    let mut i: usize = 0;
    while i < n
        invariant
            s == digits@,
            n == s.len(),
            i <= n,
            all_digits(s.take(i as int)),
            value == decimal(s.take(i as int)),
        decreases n - i,
    {
        let c = digits.get_char(i);
        proof {
            assert(s.take(i + 1).drop_last() =~= s.take(i as int));
            assert(s.take(i + 1).last() == c);
        }
        if !('0' <= c && c <= '9') {
            proof {
                assert(!is_digit(s[i as int]));
            }
            return None;
        }
        proof {
            assert forall|j: int| 0 <= j < s.take(i + 1).len() implies is_digit(
                #[trigger] s.take(i + 1)[j],
            ) by {
                if j < i {
                    assert(is_digit(s.take(i as int)[j]));
                }
            }
        }
        let digit = (c as u32 - '0' as u32) as usize;
        let next = match value.checked_mul(10) {
            Some(tenfold) => tenfold.checked_add(digit),
            None => None,
        };
        match next {
            Some(v) => {
                value = v;
            },
            None => {
                proof {
                    if all_digits(s) {
                        lemma_decimal_prefix(s, i + 1);
                    }
                }
                return None;
            },
        }
        i = i + 1;
    }
    proof {
        assert(s.take(n as int) =~= s);
    }
    Some(value)
}

/// Whether the two texts are the same.
pub fn same_text(a: &str, b: &str) -> (same: bool)
    ensures
        same == (a@ == b@),
{
    let n = a.unicode_len();
    if n != b.unicode_len() {
        return false;
    }
    let mut i: usize = 0;
    while i < n
        invariant
            n == a@.len(),
            n == b@.len(),
            i <= n,
            forall|j: int| 0 <= j < i ==> a@[j] == b@[j],
        decreases n - i,
    {
        if a.get_char(i) != b.get_char(i) {
            return false;
        }
        i = i + 1;
    }
    proof {
        assert(a@ =~= b@);
    }
    true
}

/// The move of the kind that `kind` names, on the cell at `point`.
pub open spec fn move_named(kind: Seq<char>, point: Point) -> Option<ActionType> {
    if kind == "click"@ {
        Some(ActionType::Click(point))
    } else if kind == "chord"@ {
        Some(ActionType::Chord(point))
    } else if kind == "complete"@ {
        Some(ActionType::Complete(point))
    } else if kind == "flag"@ {
        Some(ActionType::Flag(point))
    } else {
        None
    }
}

/// The move that the groups of a match stand for: after the whole match, the
/// kind of the move, then the row and the column of its cell. `None` where
/// they do not stand for one.
pub open spec fn move_of_groups(groups: Option<Seq<Option<Seq<char>>>>) -> Option<ActionType> {
    match groups {
        Some(g) => if g.len() == 4 && g[1] is Some && g[2] is Some && g[3] is Some {
            match (number_written(g[2]->0), number_written(g[3]->0)) {
                (Some(x), Some(y)) => move_named(g[1]->0, Point(x, y)),
                _ => None,
            }
        } else {
            None
        },
        None => None,
    }
}

/// The text of a move: its kind, a space, the row, a space, the column.
pub open spec fn move_pattern() -> Seq<char> {
    "(click|flag|chord|complete)\\s(\\d+)\\s(\\d+)"@
}

/// The player who types the moves.
pub struct HumanAgent {}

impl HumanAgent {
    /// The first move that `input` holds; `None` where it holds none, or
    /// where the row or the column is not a number that the machine can
    /// hold.
    pub fn action_from_string(input: &str) -> (action: Option<ActionType>)
        ensures
            action == move_of_groups(regex_first_groups(move_pattern(), input@)),
    {
        match first_match_groups("(click|flag|chord|complete)\\s(\\d+)\\s(\\d+)", input) {
            None => None,
            Some(groups) => HumanAgent::action_from_groups(&groups),
        }
    }

    /// The move that the groups of a match stand for: after the whole match,
    /// the kind of the move, then the row and the column of its cell.
    pub fn action_from_groups(groups: &Vec<Option<String>>) -> (action: Option<ActionType>)
        ensures
            action == move_of_groups(groups_view(Some(*groups))),
    {
        if groups.len() != 4 {
            return None;
        }
        match (&groups[1], &groups[2], &groups[3]) {
            (Some(kind), Some(row), Some(column)) => {
                match (parse_number(row.as_str()), parse_number(column.as_str())) {
                    (Some(x), Some(y)) => HumanAgent::extract_type_from_string(
                        kind.as_str(),
                        Point(x, y),
                    ),
                    _ => None,
                }
            },
            _ => None,
        }
    }

    /// The move of the kind that `input` names, on the cell at `point`.
    pub fn extract_type_from_string(input: &str, point: Point) -> (action: Option<ActionType>)
        ensures
            action == move_named(input@, point),
    {
        if same_text(input, "click") {
            Some(ActionType::Click(point))
        } else if same_text(input, "chord") {
            Some(ActionType::Chord(point))
        } else if same_text(input, "complete") {
            Some(ActionType::Complete(point))
        } else if same_text(input, "flag") {
            Some(ActionType::Flag(point))
        } else {
            None
        }
    }
}

} // verus!
