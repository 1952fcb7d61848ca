//! Texts joined with a separator, and numbers in base ten.

use vstd::prelude::*;
use vstd::string::StringExecFns;

verus! {

/// The texts of `parts` one after the other, with `separator` between each
/// two of them.
pub open spec fn joined(parts: Seq<Seq<char>>, separator: Seq<char>) -> Seq<char>
    decreases parts.len(),
{
    if parts.len() == 0 {
        Seq::empty()
    } else if parts.len() == 1 {
        parts[0]
    } else {
        joined(parts.drop_last(), separator) + separator + parts.last()
    }
}

/// A joined text begins with the first of its parts.
pub proof fn lemma_joined_begins(parts: Seq<Seq<char>>, separator: Seq<char>)
    requires
        parts.len() > 0,
    ensures
        parts[0].is_prefix_of(joined(parts, separator)),
    decreases parts.len(),
{
    if parts.len() > 1 {
        lemma_joined_begins(parts.drop_last(), separator);
        let head = joined(parts.drop_last(), separator);
        let whole = joined(parts, separator);
        assert(whole == head + separator + parts.last());
        assert(parts[0] =~= whole.subrange(0, parts[0].len() as int)) by {
            assert(parts[0] == head.subrange(0, parts[0].len() as int));
        }
    } else {
        assert(parts[0] =~= parts[0].subrange(0, parts[0].len() as int));
    }
}

/// The texts that `parts` hold.
pub open spec fn texts(parts: Seq<String>) -> Seq<Seq<char>> {
    parts.map_values(|part: String| part@)
}

/// `itertools::Itertools::join` on the strings of `parts`: each string as it
/// stands, in order, with `separator` between each two. The result is empty
/// for no parts, and has no separator for one.
#[verifier::external_body]
pub(crate) fn join(parts: &Vec<String>, separator: &str) -> (text: String)
    ensures
        text@ == joined(texts(parts@), separator@),
{
    itertools::Itertools::join(&mut parts.iter(), separator)
}

/// The digit `0` to `9` as a character.
pub open spec fn digit(value: int) -> char {
    if value == 0 {
        '0'
    } else if value == 1 {
        '1'
    } else if value == 2 {
        '2'
    } else if value == 3 {
        '3'
    } else if value == 4 {
        '4'
    } else if value == 5 {
        '5'
    } else if value == 6 {
        '6'
    } else if value == 7 {
        '7'
    } else if value == 8 {
        '8'
    } else {
        '9'
    }
}

/// `value` written in base ten, without sign or leading zeros.
pub open spec fn decimal(value: nat) -> Seq<char>
    decreases value,
{
    if value < 10 {
        seq![digit(value as int)]
    } else {
        decimal(value / 10).push(digit((value % 10) as int))
    }
}

/// The text of one decimal digit.
fn digit_text(value: usize) -> (text: &'static str)
    requires
        value < 10,
    ensures
        text@ == seq![digit(value as int)],
{
    proof {
        reveal_strlit("0");
        reveal_strlit("1");
        reveal_strlit("2");
        reveal_strlit("3");
        reveal_strlit("4");
        reveal_strlit("5");
        reveal_strlit("6");
        reveal_strlit("7");
        reveal_strlit("8");
        reveal_strlit("9");
    }
    let text = if value == 0 {
        "0"
    } else if value == 1 {
        "1"
    } else if value == 2 {
        "2"
    } else if value == 3 {
        "3"
    } else if value == 4 {
        "4"
    } else if value == 5 {
        "5"
    } else if value == 6 {
        "6"
    } else if value == 7 {
        "7"
    } else if value == 8 {
        "8"
    } else {
        "9"
    };
    assert(text@ =~= seq![digit(value as int)]);
    text
}

/// Writes `value` in base ten.
pub fn to_decimal(value: usize) -> (text: String)
    ensures
        text@ == decimal(value as nat),
    decreases value,
{
    let mut text = if value >= 10 {
        to_decimal(value / 10)
    } else {
        String::new()
    };
    text.append(digit_text(value % 10));
    assert(text@ =~= decimal(value as nat));
    text
}

} // verus!
