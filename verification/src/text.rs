//! Characters and their UTF-8 bytes.
//!
//! A `&str` is described by its characters but stored as bytes.  The scanner
//! walks the bytes and speaks about characters, so it needs to know where in
//! the bytes each character begins.  [`byte_offset`] gives that place, and the
//! lemmas here relate the byte found there to the character it starts.
use vstd::prelude::*;
use vstd::string::*;
use vstd::utf8::*;

verus! {

/// Number of bytes taken by the UTF-8 encoding of the first `p` characters of `s`:
/// the place in the encoded text at which character `p` begins.
pub open spec fn byte_offset(s: Seq<char>, p: int) -> int {
    encode_utf8(s.take(p)).len() as int
}

/// Length in bytes of the encoded character that begins with the byte `lead`.
pub open spec fn lead_width(lead: u8) -> int {
    if lead < 0x80 {
        1
    } else if lead < 0xE0 {
        2
    } else if lead < 0xF0 {
        3
    } else {
        4
    }
}

/// Encoding a concatenation gives the concatenation of the encodings.
pub proof fn lemma_encode_concat(a: Seq<char>, b: Seq<char>)
    ensures
        encode_utf8(a + b) == encode_utf8(a) + encode_utf8(b),
    decreases a.len(),
{
    if a.len() == 0 {
        assert(a + b =~= b);
        assert(encode_utf8(a) + encode_utf8(b) =~= encode_utf8(b));
    } else {
        lemma_encode_concat(a.drop_first(), b);
        assert((a + b).drop_first() =~= a.drop_first() + b);
        assert(encode_utf8(a + b) =~= encode_utf8(a) + encode_utf8(b));
    }
}

/// A text has at most as many characters as its encoding has bytes.
pub proof fn lemma_len_le_bytes(s: Seq<char>)
    ensures
        s.len() <= encode_utf8(s).len(),
    decreases s.len(),
{
    if s.len() > 0 {
        lemma_len_le_bytes(s.drop_first());
        char_is_scalar(s[0]);
    }
}

/// Two texts with the same encoding are the same text.
pub proof fn lemma_encode_injective(a: Seq<char>, b: Seq<char>)
    requires
        encode_utf8(a) == encode_utf8(b),
    ensures
        a == b,
{
    encode_utf8_decode_utf8(a);
    encode_utf8_decode_utf8(b);
}

/// The bytes between the starts of characters `p` and `q` encode exactly the
/// characters from `p` up to `q`.
pub proof fn lemma_offset_range(s: Seq<char>, p: int, q: int)
    requires
        0 <= p <= q <= s.len(),
    ensures
        0 <= byte_offset(s, p) <= byte_offset(s, q) <= encode_utf8(s).len(),
        byte_offset(s, 0) == 0,
        byte_offset(s, s.len() as int) == encode_utf8(s).len(),
        encode_utf8(s).subrange(byte_offset(s, p), byte_offset(s, q)) == encode_utf8(
            s.subrange(p, q),
        ),
{
    let a = s.take(p);
    let b = s.subrange(p, q);
    let c = s.skip(q);
    assert(s.take(q) =~= a + b);
    assert(s =~= s.take(q) + c);
    assert(s.take(s.len() as int) =~= s);
    assert(s.take(0) =~= Seq::<char>::empty());
    lemma_encode_concat(a, b);
    lemma_encode_concat(s.take(q), c);
    assert(encode_utf8(s).subrange(byte_offset(s, p), byte_offset(s, q)) =~= encode_utf8(b));
}

/// What the byte at the start of character `p` says about that character: its
/// width, and the character itself when the byte is below `0x80`.
pub proof fn lemma_char_at(s: Seq<char>, p: int)
    requires
        0 <= p < s.len(),
    ensures
        0 <= byte_offset(s, p) < encode_utf8(s).len(),
        byte_offset(s, p + 1) == byte_offset(s, p) + lead_width(
            encode_utf8(s)[byte_offset(s, p)],
        ),
        byte_offset(s, p + 1) <= encode_utf8(s).len(),
        encode_utf8(s)[byte_offset(s, p)] < 0x80 ==> s[p] == encode_utf8(s)[byte_offset(s, p)] as char,
        encode_utf8(s)[byte_offset(s, p)] >= 0x80 ==> s[p] as u32 >= 0x80,
        !is_continuation_byte(encode_utf8(s)[byte_offset(s, p)]),
{
    let tail = s.skip(p);
    let one = s.subrange(p, p + 1);
    lemma_offset_range(s, p, p + 1);
    lemma_offset_range(s, p, s.len() as int);
    lemma_offset_range(s, p + 1, s.len() as int);
    assert(s.subrange(p, s.len() as int) =~= tail);
    assert(one.drop_first() =~= Seq::<char>::empty());
    assert(encode_utf8(one) =~= encode_scalar(s[p] as u32)) by {
        reveal_with_fuel(encode_utf8, 2);
    }
    encode_utf8_first_scalar(tail);
    let lead = encode_utf8(tail)[0];
    assert(lead == encode_utf8(s)[byte_offset(s, p)]);
    if lead < 0x80 {
        assert((lead & 0x7F) as u32 == lead) by (bit_vector)
            requires
                lead < 0x80,
        ;
        char_u32_cast(s[p], lead as u32);
    }
}

/// Every character starts on a character boundary of the encoded text, and so
/// does the end of the text.
pub proof fn lemma_offset_is_boundary(s: Seq<char>, p: int)
    requires
        0 <= p <= s.len(),
    ensures
        is_char_boundary(encode_utf8(s), byte_offset(s, p)),
{
    let bytes = encode_utf8(s);
    encode_utf8_valid_utf8(s);
    lemma_offset_range(s, p, p);
    if p == s.len() {
        is_char_boundary_start_end_of_seq(bytes);
    } else {
        lemma_char_at(s, p);
        is_char_boundary_iff_not_is_continuation_byte(bytes, byte_offset(s, p));
    }
}

/// Width in bytes of the encoded character that begins with `lead`.
pub fn scalar_width(lead: u8) -> (width: usize)
    ensures
        width == lead_width(lead),
{
    if lead < 0x80 {
        1
    } else if lead < 0xE0 {
        2
    } else if lead < 0xF0 {
        3
    } else {
        4
    }
}

/// The characters of `s` from `p` up to `q`, as a slice of `s`.  `from` and `to`
/// are the byte offsets at which those two characters begin.
pub(crate) fn slice_of<'a>(s: &'a str, from: usize, to: usize, Ghost(p): Ghost<int>, Ghost(q): Ghost<int>) -> (part: &'a str)
    requires
        0 <= p <= q <= s@.len(),
        from == byte_offset(s@, p),
        to == byte_offset(s@, q),
    ensures
        part@ == s@.subrange(p, q),
{
    proof {
        lemma_offset_is_boundary(s@, q);
        lemma_offset_range(s@, 0, q);
    }
    let (head, _) = s.split_at(to);
    proof {
        assert(s@.subrange(0, q) =~= s@.take(q));
        lemma_encode_injective(head@, s@.take(q));
        assert(head@.take(p) =~= s@.take(p));
        lemma_offset_is_boundary(head@, p);
        lemma_offset_range(head@, p, q);
    }
    let (_, part) = head.split_at(from);
    proof {
        assert(head@.subrange(p, q) =~= s@.subrange(p, q));
        lemma_encode_injective(part@, s@.subrange(p, q));
    }
    part
}

/// Whether two texts hold the same characters.
pub fn same_text(a: &str, b: &str) -> (same: bool)
    ensures
        same == (a@ == b@),
{
    let x = a.as_bytes();
    let y = b.as_bytes();
    if x.len() != y.len() {
        return false;
    }
    let mut i: usize = 0;
    while i < x.len()
        invariant
            i <= x.len(),
            x.len() == y.len(),
            x@ == a.spec_bytes(),
            y@ == b.spec_bytes(),
            forall|k: int| 0 <= k < i ==> x@[k] == y@[k],
        decreases x.len() - i,
    {
        if x[i] != y[i] {
            return false;
        }
        i += 1;
    }
    proof {
        assert(x@ =~= y@);
        lemma_encode_injective(a@, b@);
    }
    true
}

} // verus!
