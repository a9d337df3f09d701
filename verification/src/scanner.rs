//! The scanner: from text to brackets and string literals, in one pass.
//!
//! Outside string literals only the four brackets and the quote mean anything;
//! every other character is passed over.  So numbers, `true`, `null`, commas
//! and white space never show up as events.
use crate::event::{JsonEvent, Token};
use crate::text::{
    byte_offset, lemma_char_at, lemma_len_le_bytes, lemma_offset_range, scalar_width, slice_of,
};
use vstd::prelude::*;
use vstd::string::*;
use vstd::utf8::*;

verus! {

/// The bytes that the scanner knows.  Each is below `0x80`, so in UTF-8 it
/// stands for the character of the same number and is part of no other.
const OPEN_BRACE: u8 = 0x7B;

const CLOSE_BRACE: u8 = 0x7D;

const OPEN_BRACKET: u8 = 0x5B;

const CLOSE_BRACKET: u8 = 0x5D;

const QUOTE: u8 = 0x22;

const BACKSLASH: u8 = 0x5C;

const COLON: u8 = 0x3A;

/// Where the string literal whose body starts at `p` ends: the position of its
/// closing quote.  A backslash takes the character behind it along, whatever
/// it is.  `None` when the text ends before the literal does.
pub open spec fn literal_end(s: Seq<char>, p: int) -> Option<int>
    decreases s.len() - p,
{
    if p < 0 || p >= s.len() {
        None
    } else if s[p] == '"' {
        Some(p)
    } else if s[p] == '\\' {
        if p + 1 < s.len() {
            literal_end(s, p + 2)
        } else {
            None
        }
    } else {
        literal_end(s, p + 1)
    }
}

/// The first event at or behind position `p` of `s`, with the position right
/// behind it.  `None` when no event is left, which includes a last literal that
/// is never closed.
pub open spec fn next_token(s: Seq<char>, p: int) -> Option<(Token, int)>
    decreases s.len() - p,
{
    if p < 0 || p >= s.len() {
        None
    } else if s[p] == '{' {
        Some((Token::EnterObj, p + 1))
    } else if s[p] == '}' {
        Some((Token::ExitObj, p + 1))
    } else if s[p] == '[' {
        Some((Token::EnterList, p + 1))
    } else if s[p] == ']' {
        Some((Token::ExitList, p + 1))
    } else if s[p] == '"' {
        match literal_end(s, p + 1) {
            Some(q) => {
                let text = s.subrange(p + 1, q);
                if q + 1 < s.len() && s[q + 1] == ':' {
                    Some((Token::Entry(text), q + 1))
                } else {
                    Some((Token::Str(text), q + 1))
                }
            },
            None => None,
        }
    } else {
        next_token(s, p + 1)
    }
}

/// All events of `s` from position `p` on, in order.
pub open spec fn tokens_from(s: Seq<char>, p: int) -> Seq<Token>
    decreases s.len() - p,
{
    match next_token(s, p) {
        Some((token, end)) => {
            proof {
                lemma_next_token_advances(s, p);
            }
            seq![token] + tokens_from(s, end)
        },
        None => Seq::empty(),
    }
}

/// All events of `s`.
pub open spec fn tokens(s: Seq<char>) -> Seq<Token> {
    tokens_from(s, 0)
}

/// A closing quote lies inside the text, at or behind the place the search began.
pub proof fn lemma_literal_end_bounds(s: Seq<char>, p: int)
    ensures
        literal_end(s, p) matches Some(q) ==> 0 <= p <= q < s.len() && s[q] == '"',
    decreases s.len() - p,
{
    if 0 <= p < s.len() && s[p] != '"' {
        if s[p] == '\\' {
            if p + 1 < s.len() {
                lemma_literal_end_bounds(s, p + 2);
            }
        } else {
            lemma_literal_end_bounds(s, p + 1);
        }
    }
}

/// An event takes up at least one character and ends inside the text.
pub proof fn lemma_next_token_advances(s: Seq<char>, p: int)
    ensures
        next_token(s, p) matches Some((_, end)) ==> 0 <= p < end <= s.len(),
    decreases s.len() - p,
{
    if 0 <= p < s.len() {
        if s[p] == '"' {
            lemma_literal_end_bounds(s, p + 1);
        } else if s[p] != '{' && s[p] != '}' && s[p] != '[' && s[p] != ']' {
            lemma_next_token_advances(s, p + 1);
        }
    }
}

/// Text behind a closed literal does not move its closing quote.
pub proof fn lemma_literal_end_extends(head: Seq<char>, tail: Seq<char>, p: int)
    requires
        literal_end(head, p) is Some,
    ensures
        literal_end(head + tail, p) == literal_end(head, p),
    decreases head.len() - p,
{
    if 0 <= p < head.len() {
        assert((head + tail)[p] == head[p]);
        if head[p] == '"' {
        } else if head[p] == '\\' {
            if p + 1 < head.len() {
                lemma_literal_end_extends(head, tail, p + 2);
            }
        } else {
            lemma_literal_end_extends(head, tail, p + 1);
        }
    }
}

/// A bracket, or a literal with a character of `head` behind it, is the same
/// event when more text follows `head`.
pub proof fn lemma_next_token_extends(head: Seq<char>, tail: Seq<char>, p: int)
    requires
        next_token(head, p) matches Some((token, end)) && (end < head.len() || token.depth_change()
            != 0),
    ensures
        next_token(head + tail, p) == next_token(head, p),
    decreases head.len() - p,
{
    let s = head + tail;
    if 0 <= p < head.len() {
        assert(s[p] == head[p]);
        if head[p] == '"' {
            lemma_literal_end_extends(head, tail, p + 1);
            lemma_literal_end_bounds(head, p + 1);
            let q = literal_end(head, p + 1)->0;
            assert(s[q + 1] == head[q + 1]);
            assert(s.subrange(p + 1, q) =~= head.subrange(p + 1, q));
        } else if head[p] != '{' && head[p] != '}' && head[p] != '[' && head[p] != ']' {
            lemma_next_token_extends(head, tail, p + 1);
        }
    }
}

/// The closing quote of a literal is found in the same place when the text in
/// front of position `k` is cut off.
pub proof fn lemma_literal_end_shift(s: Seq<char>, k: int, p: int)
    requires
        0 <= k <= s.len(),
        0 <= p,
    ensures
        literal_end(s.skip(k), p) == match literal_end(s, k + p) {
            Some(q) => Some(q - k),
            None => None,
        },
    decreases s.len() - k - p,
{
    let cut = s.skip(k);
    if p < cut.len() {
        assert(cut[p] == s[k + p]);
        if cut[p] == '"' {
        } else if cut[p] == '\\' {
            if p + 1 < cut.len() {
                lemma_literal_end_shift(s, k, p + 2);
            }
        } else {
            lemma_literal_end_shift(s, k, p + 1);
        }
    }
}

/// The next event is the same when the text in front of position `k` is cut
/// off.
pub proof fn lemma_next_token_shift(s: Seq<char>, k: int, p: int)
    requires
        0 <= k <= s.len(),
        0 <= p,
    ensures
        next_token(s.skip(k), p) == match next_token(s, k + p) {
            Some((token, end)) => Some((token, end - k)),
            None => None,
        },
    decreases s.len() - k - p,
{
    let cut = s.skip(k);
    if p < cut.len() {
        assert(cut[p] == s[k + p]);
        if cut[p] == '"' {
            lemma_literal_end_shift(s, k, p + 1);
            lemma_literal_end_bounds(s, k + p + 1);
            match literal_end(s, k + p + 1) {
                Some(q) => {
                    assert(cut.subrange(p + 1, q - k) =~= s.subrange(k + p + 1, q));
                    if q + 1 < s.len() {
                        assert(cut[q - k + 1] == s[q + 1]);
                    }
                },
                None => {},
            }
        } else if cut[p] != '{' && cut[p] != '}' && cut[p] != '[' && cut[p] != ']' {
            lemma_next_token_shift(s, k, p + 1);
        }
    }
}

/// The events from a position on do not depend on the text in front of it.
pub proof fn lemma_tokens_shift(s: Seq<char>, k: int, p: int)
    requires
        0 <= k <= s.len(),
        0 <= p,
    ensures
        tokens_from(s.skip(k), p) == tokens_from(s, k + p),
    decreases s.len() - k - p,
{
    lemma_next_token_shift(s, k, p);
    lemma_next_token_advances(s, k + p);
    match next_token(s, k + p) {
        Some((_, end)) => {
            lemma_tokens_shift(s, k, end - k);
        },
        None => {},
    }
}

/// A single forward pass over a text that yields its events one by one.
pub struct JsonScanner<'src> {
    json: &'src str,
    /// Byte offset of the next character to look at.
    i: usize,
    /// The same place, counted in characters.
    at: Ghost<int>,
}

impl<'src> JsonScanner<'src> {
    #[verifier::type_invariant]
    spec fn aligned(self) -> bool {
        &&& 0 <= self.at@ <= self.json@.len()
        &&& self.i == byte_offset(self.json@, self.at@)
    }

    /// The text being scanned.
    pub closed spec fn source(self) -> Seq<char> {
        self.json@
    }

    /// How many characters of the text have been passed.
    pub closed spec fn position(self) -> int {
        self.at@
    }

    /// The events still to come.
    pub open spec fn pending(self) -> Seq<Token> {
        tokens_from(self.source(), self.position())
    }

    /// A scanner at the start of `json`.
    pub fn new(json: &'src str) -> (scanner: Self)
        ensures
            scanner.source() == json@,
            scanner.position() == 0,
    {
        proof {
            lemma_offset_range(json@, 0, 0);
        }
        JsonScanner { json, i: 0, at: Ghost(0) }
    }

    /// The next event, or `None` when the text holds no further event.  After
    /// `None` the scanner is at the end of the text and stays there.
    pub fn next(&mut self) -> (event: Option<JsonEvent<'src>>)
        ensures
            final(self).source() == old(self).source(),
            0 <= old(self).position() <= final(self).position() <= old(self).source().len(),
            final(self).position() <= usize::MAX,
            match next_token(old(self).source(), old(self).position()) {
                Some((token, end)) => event matches Some(e) && e@ == token && final(self).position()
                    == end,
                None => event is None && final(self).position() == old(self).source().len(),
            },
            old(self).pending() == match event {
                Some(e) => seq![e@] + final(self).pending(),
                None => Seq::empty(),
            },
    {
        proof {
            use_type_invariant(&*self);
        }
        let json = self.json;
        let bytes = json.as_bytes();
        let n = bytes.len();
        let ghost s = json@;
        let ghost start = self.at@;
        let mut i = self.i;
        let ghost mut p = self.at@;
        proof {
            lemma_offset_range(s, 0, s.len() as int);
            lemma_next_token_advances(s, start);
            assert forall|k: int| 0 <= k <= s.len() implies k <= #[trigger] byte_offset(s, k) by {
                lemma_len_le_bytes(s.take(k));
            }
        }
        while i < n
            invariant
                s == json@,
                s == old(self).source(),
                start == old(self).position(),
                forall|k: int| 0 <= k <= s.len() ==> k <= #[trigger] byte_offset(s, k),
                bytes@ == encode_utf8(s),
                n == bytes@.len(),
                n == byte_offset(s, s.len() as int),
                0 <= start <= p <= s.len(),
                i == byte_offset(s, p),
                next_token(s, p) == next_token(s, start),
            decreases n - i,
        {
            proof {
                if p < s.len() {
                    lemma_char_at(s, p);
                }
            }
            let b = bytes[i];
            if b == OPEN_BRACE {
                *self = JsonScanner { json, i: i + 1, at: Ghost(p + 1) };
                return Some(JsonEvent::EnterObj);
            } else if b == CLOSE_BRACE {
                *self = JsonScanner { json, i: i + 1, at: Ghost(p + 1) };
                return Some(JsonEvent::ExitObj);
            } else if b == OPEN_BRACKET {
                *self = JsonScanner { json, i: i + 1, at: Ghost(p + 1) };
                return Some(JsonEvent::EnterList);
            } else if b == CLOSE_BRACKET {
                *self = JsonScanner { json, i: i + 1, at: Ghost(p + 1) };
                return Some(JsonEvent::ExitList);
            } else if b == QUOTE {
                match closing_quote(bytes, i + 1, Ghost(s), Ghost(p + 1)) {
                    Some(j) => {
                        let ghost q = literal_end(s, p + 1)->0;
                        proof {
                            lemma_literal_end_bounds(s, p + 1);
                            lemma_char_at(s, q);
                            if q + 1 < s.len() {
                                lemma_char_at(s, q + 1);
                            }
                        }
                        let text = slice_of(json, i + 1, j, Ghost(p + 1), Ghost(q));
                        let is_key = j + 1 < n && bytes[j + 1] == COLON;
                        *self = JsonScanner { json, i: j + 1, at: Ghost(q + 1) };
                        if is_key {
                            return Some(JsonEvent::Entry(text));
                        } else {
                            return Some(JsonEvent::Str(text));
                        }
                    },
                    None => {
                        *self = JsonScanner { json, i: n, at: Ghost(s.len() as int) };
                        return None;
                    },
                }
            } else {
                i += scalar_width(b);
                proof {
                    p = p + 1;
                }
            }
        }
        proof {
            if p < s.len() {
                lemma_char_at(s, p);
            }
        }
        *self = JsonScanner { json, i: n, at: Ghost(s.len() as int) };
        None
    }
}

/// Looks for the quote that closes a literal whose body begins at byte `from`,
/// which is where character `p` of `s` begins.  Gives the byte offset of that
/// quote.
fn closing_quote(bytes: &[u8], from: usize, Ghost(s): Ghost<Seq<char>>, Ghost(p): Ghost<int>) -> (found:
    Option<usize>)
    requires
        bytes@ == encode_utf8(s),
        0 <= p <= s.len(),
        from == byte_offset(s, p),
    ensures
        match literal_end(s, p) {
            Some(q) => found == Some(byte_offset(s, q) as usize) && byte_offset(s, q) < bytes@.len(),
            None => found is None,
        },
{
    let n = bytes.len();
    let mut j = from;
    let ghost mut q = p;
    proof {
        lemma_offset_range(s, 0, s.len() as int);
    }
    while j < n
        invariant
            bytes@ == encode_utf8(s),
            n == bytes@.len(),
            n == byte_offset(s, s.len() as int),
            0 <= q <= s.len(),
            j == byte_offset(s, q),
            literal_end(s, q) == literal_end(s, p),
        decreases n - j,
    {
        proof {
            if q < s.len() {
                lemma_char_at(s, q);
            }
        }
        let b = bytes[j];
        if b == QUOTE {
            return Some(j);
        } else if b == BACKSLASH {
            j += 1;
            if j < n {
                proof {
                    if q + 1 < s.len() {
                        lemma_char_at(s, q + 1);
                    }
                }
                j += scalar_width(bytes[j]);
                proof {
                    q = q + 2;
                }
            } else {
                proof {
                    if q + 1 < s.len() {
                        lemma_char_at(s, q + 1);
                    }
                }
                return None;
            }
        } else {
            j += scalar_width(b);
            proof {
                q = q + 1;
            }
        }
    }
    proof {
        if q < s.len() {
            lemma_char_at(s, q);
        }
    }
    None
}

} // verus!
