use vstd::prelude::*;

verus! {

/// A cell color. Colors are compared for equality only; there is no ordering.
#[derive(Clone, Copy, Debug, PartialEq, Eq, Hash, Structural)]
pub enum Color {
    Green,
    Pink,
    Blue,
    Orange,
}

/// The display character of each color.
pub open spec fn char_of(c: Color) -> char {
    match c {
        Color::Green => 'G',
        Color::Pink => 'P',
        Color::Blue => 'B',
        Color::Orange => 'O',
    }
}

/// The color named by a character, if any; inverse of `char_of`.
pub open spec fn color_of(c: char) -> Option<Color> {
    match c {
        'G' => Some(Color::Green),
        'P' => Some(Color::Pink),
        'B' => Some(Color::Blue),
        'O' => Some(Color::Orange),
        _ => None,
    }
}

/// Relies on String::push: appends exactly the given character.
#[verifier::external_body]
fn push_char(s: &mut String, c: char)
    ensures
        final(s)@ == old(s)@ + seq![c],
{
    s.push(c);
}

impl Color {
    /// The character that renders this color.
    pub fn to_char(self) -> (c: char)
        ensures
            c == char_of(self),
    {
        match self {
            Color::Green => 'G',
            Color::Pink => 'P',
            Color::Blue => 'B',
            Color::Orange => 'O',
        }
    }

    /// The color named by `c`, or `None` for any other character.
    pub fn from_char(c: char) -> (r: Option<Color>)
        ensures
            r == color_of(c),
    {
        match c {
            'G' => Some(Color::Green),
            'P' => Some(Color::Pink),
            'B' => Some(Color::Blue),
            'O' => Some(Color::Orange),
            _ => None,
        }
    }

    /// The color named by `c`, or a report naming the rejected character.
    pub fn try_from(c: char) -> (r: Result<Color, String>)
        ensures
            match r {
                Ok(k) => color_of(c) == Some(k),
                Err(e) => color_of(c) is None && e@ == "Invalid character: "@ + seq![c],
            },
    {
        match Color::from_char(c) {
            Some(k) => Ok(k),
            None => {
                let mut msg = String::from_str("Invalid character: ");
                push_char(&mut msg, c);
                proof {
                    assert(msg@ =~= "Invalid character: "@ + seq![c]);
                }
                Err(msg)
            },
        }
    }
}

} // verus!
