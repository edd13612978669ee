//! Text for reports: exponents in superscript.

use vstd::prelude::*;
use vstd::string::*;

verus! {

/// The superscript form of a decimal digit; any other character is left as
/// it is.
pub open spec fn superscript_char(c: char) -> char {
    if c == '0' {
        '\u{2070}'
    } else if c == '1' {
        '\u{00b9}'
    } else if c == '2' {
        '\u{00b2}'
    } else if c == '3' {
        '\u{00b3}'
    } else if c == '4' {
        '\u{2074}'
    } else if c == '5' {
        '\u{2075}'
    } else if c == '6' {
        '\u{2076}'
    } else if c == '7' {
        '\u{2077}'
    } else if c == '8' {
        '\u{2078}'
    } else if c == '9' {
        '\u{2079}'
    } else {
        c
    }
}

/// A text with each of its characters in superscript form.
pub open spec fn superscript_text(text: Seq<char>) -> Seq<char> {
    text.map_values(|c: char| superscript_char(c))
}

/// The superscript form of one character.
fn raise(c: char) -> (raised: char)
    ensures
        raised == superscript_char(c),
{
    match c {
        '0' => '\u{2070}',
        '1' => '\u{00b9}',
        '2' => '\u{00b2}',
        '3' => '\u{00b3}',
        '4' => '\u{2074}',
        '5' => '\u{2075}',
        '6' => '\u{2076}',
        '7' => '\u{2077}',
        '8' => '\u{2078}',
        '9' => '\u{2079}',
        _ => c,
    }
}

/// Appends a character to a text. Calls `String::push`, which appends the
/// character at the end.
#[verifier::external_body]
fn push_char(text: &mut String, c: char)
    ensures
        final(text)@ == old(text)@.push(c),
{
    text.push(c);
}

/// The text with every decimal digit replaced by its superscript form.
pub fn superscript(number: &str) -> (raised: String)
    ensures
        raised@ == superscript_text(number@),
{
    broadcast use group_string_axioms;

    let mut raised = String::new();
    proof {
        assert(raised@ =~= superscript_text(number@.take(0)));
    }
    for c in it: number.chars()
        invariant
            it.seq() == number@,
            raised@ == superscript_text(number@.take(it.index() as int)),
    {
        let up = raise(c);
        let ghost text = raised@;
        push_char(&mut raised, up);
        proof {
            assert(number@.take(it.index() + 1) =~= number@.take(it.index() as int).push(c));
            assert(text.push(up) =~= superscript_text(number@.take(it.index() + 1)));
        }
    }
    proof {
        assert(number@.take(number@.len() as int) =~= number@);
    }
    raised
}

} // verus!
