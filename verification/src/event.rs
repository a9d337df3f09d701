//! The events that the scanner hands out.
use vstd::prelude::*;

verus! {

/// What an event says, with the text of a literal as plain characters.
pub enum Token {
    /// `{`
    EnterObj,
    /// `}`
    ExitObj,
    /// `[`
    EnterList,
    /// `]`
    ExitList,
    /// A string literal with a colon right behind it: the key of an object member.
    Entry(Seq<char>),
    /// Any other string literal.
    Str(Seq<char>),
}

impl Token {
    /// By how much the event changes the nesting depth.
    pub open spec fn depth_change(self) -> int {
        match self {
            Token::EnterObj | Token::EnterList => 1,
            Token::ExitObj | Token::ExitList => -1,
            Token::Entry(_) | Token::Str(_) => 0,
        }
    }
}

/// One bracket or one string literal of the scanned text.
///
/// The text of a literal is what stands between its quotes, exactly as written:
/// escape sequences are kept, not decoded.  It is a slice of the scanned text.
#[derive(Debug, Clone, Copy, PartialEq, Eq)]
pub enum JsonEvent<'src> {
    /// `{`
    EnterObj,
    /// `}`
    ExitObj,
    /// `[`
    EnterList,
    /// `]`
    ExitList,
    /// A string literal with a colon right behind it: the key of an object member.
    Entry(&'src str),
    /// Any other string literal.
    Str(&'src str),
}

impl<'src> View for JsonEvent<'src> {
    type V = Token;

    open spec fn view(&self) -> Token {
        match *self {
            JsonEvent::EnterObj => Token::EnterObj,
            JsonEvent::ExitObj => Token::ExitObj,
            JsonEvent::EnterList => Token::EnterList,
            JsonEvent::ExitList => Token::ExitList,
            JsonEvent::Entry(text) => Token::Entry(text@),
            JsonEvent::Str(text) => Token::Str(text@),
        }
    }
}

} // verus!
