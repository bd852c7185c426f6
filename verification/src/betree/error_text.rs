//! What an error says to a person.
use vstd::prelude::*;
use vstd::string::*;

use crate::betree::node::CowBeTreeError;

verus! {

/// A digit as text.
pub open spec fn digit(n: nat) -> Seq<char> {
    if n == 0 {
        "0"@
    } else if n == 1 {
        "1"@
    } else if n == 2 {
        "2"@
    } else if n == 3 {
        "3"@
    } else if n == 4 {
        "4"@
    } else if n == 5 {
        "5"@
    } else if n == 6 {
        "6"@
    } else if n == 7 {
        "7"@
    } else if n == 8 {
        "8"@
    } else {
        "9"@
    }
}

/// A number in decimal digits, without leading zeros.
pub open spec fn decimal(n: nat) -> Seq<char>
    decreases n,
{
    if n < 10 {
        digit(n)
    } else {
        decimal(n / 10) + digit(n % 10)
    }
}

fn digit_text(n: usize) -> (r: &'static str)
    requires
        n < 10,
    ensures
        r@ == digit(n as nat),
{
    if n == 0 {
        "0"
    } else if n == 1 {
        "1"
    } else if n == 2 {
        "2"
    } else if n == 3 {
        "3"
    } else if n == 4 {
        "4"
    } else if n == 5 {
        "5"
    } else if n == 6 {
        "6"
    } else if n == 7 {
        "7"
    } else if n == 8 {
        "8"
    } else {
        "9"
    }
}

fn append_decimal(text: &mut String, n: usize)
    ensures
        final(text)@ == old(text)@ + decimal(n as nat),
    decreases n,
{
    if n >= 10 {
        append_decimal(text, n / 10);
    }
    text.append(digit_text(n % 10));
    proof {
        assert(n < 10 ==> n % 10 == n);
        assert(text@ =~= old(text)@ + decimal(n as nat));
    }
}

impl CowBeTreeError {
    /// What the error says.
    pub open spec fn text(&self) -> Seq<char> {
        match *self {
            CowBeTreeError::CorruptPage(msg) => "corrupt CoW B-epsilon page: "@ + msg@,
            CowBeTreeError::EmptyInternalPage => "internal CoW B-epsilon page has no children"@,
            CowBeTreeError::PageOverflow { kind, needed, capacity } => kind@ + " page needs "@
                + decimal(needed as nat) + " bytes, capacity is "@ + decimal(capacity as nat),
        }
    }

    /// What the error says.
    pub fn to_text(&self) -> (r: String)
        ensures
            r@ == self.text(),
    {
        let mut text = String::new();
        match self {
            CowBeTreeError::CorruptPage(msg) => {
                text.append("corrupt CoW B-epsilon page: ");
                text.append(msg);
            },
            CowBeTreeError::EmptyInternalPage => {
                text.append("internal CoW B-epsilon page has no children");
            },
            CowBeTreeError::PageOverflow { kind, needed, capacity } => {
                text.append(kind);
                text.append(" page needs ");
                append_decimal(&mut text, *needed);
                text.append(" bytes, capacity is ");
                append_decimal(&mut text, *capacity);
            },
        }
        assert(text@ =~= self.text());
        text
    }
}

} // verus!
