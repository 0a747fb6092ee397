//! Dense handles for the entities of a log.

use vstd::prelude::*;
use vstd::string::StringExecFns;

verus! {

/// Position of an event in the log's event list.
#[derive(Debug, Clone, Copy, Hash, PartialEq, Eq, Structural)]
pub struct EventIndex(pub usize);

/// Position of an object in the log's object list.
#[derive(Debug, Clone, Copy, Hash, PartialEq, Eq, Structural)]
pub struct ObjectIndex(pub usize);

/// A node of the relation graph: either an object or an event.
#[derive(Debug, Clone, Copy, Hash, PartialEq, Eq, Structural)]
pub enum ObjectOrEventIndex {
    Object(ObjectIndex),
    Event(EventIndex),
}

/// The character for a decimal digit.
pub open spec fn digit(d: nat) -> char {
    if d == 0 {
        '0'
    } else if d == 1 {
        '1'
    } else if d == 2 {
        '2'
    } else if d == 3 {
        '3'
    } else if d == 4 {
        '4'
    } else if d == 5 {
        '5'
    } else if d == 6 {
        '6'
    } else if d == 7 {
        '7'
    } else if d == 8 {
        '8'
    } else {
        '9'
    }
}

/// A number written in decimal, without leading zeros.
pub open spec fn decimal(n: nat) -> Seq<char>
    decreases n,
{
    if n < 10 {
        seq![digit(n)]
    } else {
        decimal(n / 10).push(digit(n % 10))
    }
}

/// The text of one decimal digit.
fn digit_text(d: usize) -> (text: &'static str)
    requires
        d < 10,
    ensures
        text@ == seq![digit(d as nat)],
{
    proof {
        reveal_strlit("0");
        reveal_strlit("1");
        reveal_strlit("2");
        reveal_strlit("3");
        reveal_strlit("4");
        reveal_strlit("5");
        reveal_strlit("6");
        reveal_strlit("7");
        reveal_strlit("8");
        reveal_strlit("9");
    }
    let text = match d {
        0 => "0",
        1 => "1",
        2 => "2",
        3 => "3",
        4 => "4",
        5 => "5",
        6 => "6",
        7 => "7",
        8 => "8",
        _ => "9",
    };
    assert(text@ =~= seq![digit(d as nat)]);
    text
}

/// Appends `n` in decimal to `text`.
fn append_decimal(text: &mut String, n: usize)
    ensures
        final(text)@ == old(text)@ + decimal(n as nat),
    decreases n,
{
    if n >= 10 {
        append_decimal(text, n / 10);
    }
    let ghost before = text@;
    text.append(digit_text(n % 10));
    assert(before + seq![digit((n % 10) as nat)] =~= before.push(digit((n % 10) as nat)));
    proof {
        if n >= 10 {
            assert(old(text)@ + decimal((n / 10) as nat).push(digit((n % 10) as nat)) =~= (old(
                text,
            )@ + decimal((n / 10) as nat)).push(digit((n % 10) as nat)));
        } else {
            assert(old(text)@ + seq![digit(n as nat)] =~= old(text)@.push(digit(n as nat)));
        }
    }
}

impl EventIndex {
    /// The handle as text: `Ev:` and the position in decimal.
    pub fn to_string(&self) -> (text: String)
        ensures
            text@ == "Ev:"@ + decimal(self.0 as nat),
    {
        let mut text = String::from_str("Ev:");
        append_decimal(&mut text, self.0);
        text
    }
}

impl ObjectIndex {
    /// The handle as text: `Ob:` and the position in decimal.
    pub fn to_string(&self) -> (text: String)
        ensures
            text@ == "Ob:"@ + decimal(self.0 as nat),
    {
        let mut text = String::from_str("Ob:");
        append_decimal(&mut text, self.0);
        text
    }
}

} // verus!
