//! Text positions: characters, their UTF-8 widths and byte offsets.
use vstd::prelude::*;

verus! {

/// The number of bytes of the UTF-8 encoding of `c`.
pub open spec fn char_width(c: char) -> nat {
    if (c as u32) < 0x80 {
        1
    } else if (c as u32) < 0x800 {
        2
    } else if (c as u32) < 0x10000 {
        3
    } else {
        4
    }
}

/// The number of bytes of the UTF-8 encoding of `s`.
pub open spec fn byte_len(s: Seq<char>) -> nat
    decreases s.len(),
{
    if s.len() == 0 {
        0
    } else {
        byte_len(s.drop_last()) + char_width(s.last())
    }
}

/// The byte offset at which the character with index `i` of `s` starts.
pub open spec fn byte_offset(s: Seq<char>, i: int) -> nat {
    byte_len(s.take(i))
}

/// Byte offsets grow with the character index.
pub proof fn lemma_byte_offset_monotonic(s: Seq<char>, i: int, j: int)
    requires
        0 <= i <= j <= s.len(),
    ensures
        byte_offset(s, i) <= byte_offset(s, j),
        byte_offset(s, j) <= byte_len(s),
{
    lemma_byte_offset_up(s, i, j);
    lemma_byte_offset_up(s, j, s.len() as int);
    assert(s.take(s.len() as int) =~= s);
}

proof fn lemma_byte_offset_up(s: Seq<char>, i: int, j: int)
    requires
        0 <= i <= j <= s.len(),
    ensures
        byte_offset(s, i) <= byte_offset(s, j),
    decreases j - i,
{
    if i < j {
        lemma_byte_offset_up(s, i, j - 1);
        lemma_byte_offset_step(s, j - 1);
    }
}

/// Going one character further adds the width of that character.
pub proof fn lemma_byte_offset_step(s: Seq<char>, i: int)
    requires
        0 <= i < s.len(),
    ensures
        byte_offset(s, i + 1) == byte_offset(s, i) + char_width(s[i]),
{
    assert(s.take(i + 1).drop_last() =~= s.take(i));
}

/// The UTF-8 width of `c`, as `char::len_utf8` computes it.
pub fn char_len_utf8(c: char) -> (w: usize)
    ensures
        w == char_width(c),
        1 <= w <= 4,
{
    let u = c as u32;
    if u < 0x80 {
        1
    } else if u < 0x800 {
        2
    } else if u < 0x10000 {
        3
    } else {
        4
    }
}

/// The byte offset of every character index of `s`, and of its end.
pub fn byte_offsets(s: &Vec<char>) -> (offsets: Vec<usize>)
    requires
        byte_len(s@) <= usize::MAX,
    ensures
        offsets.len() == s.len() + 1,
        forall|i: int| 0 <= i <= s.len() ==> #[trigger] offsets[i] == byte_offset(s@, i),
{
    let mut offsets: Vec<usize> = Vec::new();
    let mut acc: usize = 0;
    offsets.push(0);
    assert(s@.take(0) =~= Seq::<char>::empty());
    let mut i: usize = 0;
    while i < s.len()
        invariant
            i <= s.len(),
            byte_len(s@) <= usize::MAX,
            offsets.len() == i + 1,
            acc == byte_offset(s@, i as int),
            forall|k: int| 0 <= k <= i ==> #[trigger] offsets[k] == byte_offset(s@, k),
        decreases s.len() - i,
    {
        proof {
            lemma_byte_offset_step(s@, i as int);
            lemma_byte_offset_monotonic(s@, i as int + 1, s.len() as int);
        }
        let w = char_len_utf8(s[i]);
        acc = acc + w;
        offsets.push(acc);
        i = i + 1;
    }
    offsets
}

/// The characters of `s`, in order.
///
/// Wraps `str::chars` collected into a `Vec`. The contract claims that the
/// result is the character sequence of `s` and that its UTF-8 length (the sum of
/// `char::len_utf8` over the characters, which is `str::len`) fits in `usize`.
#[verifier::external_body]
pub(crate) fn str_to_chars(s: &str) -> (chars: Vec<char>)
    ensures
        chars@ == s@,
        byte_len(chars@) <= isize::MAX,
{
    s.chars().collect()
}

/// The string made of the characters of `chars`.
///
/// Wraps collecting a `char` slice into a `String`; the contract claims that the
/// result holds exactly these characters.
#[verifier::external_body]
pub(crate) fn chars_to_string(chars: &[char]) -> (s: String)
    ensures
        s@ == chars@,
{
    chars.iter().collect()
}

/// A copy of `s[lo..hi]`.
pub fn sub_chars(s: &[char], lo: usize, hi: usize) -> (r: Vec<char>)
    requires
        lo <= hi <= s@.len(),
    ensures
        r@ == s@.subrange(lo as int, hi as int),
{
    let mut r: Vec<char> = Vec::new();
    let mut i = lo;
    while i < hi
        invariant
            lo <= i <= hi <= s@.len(),
            r@ == s@.subrange(lo as int, i as int),
        decreases hi - i,
    {
        r.push(s[i]);
        i = i + 1;
    }
    r
}

/// Whether `s[at..]` starts with `unit`.
pub fn starts_with_at(s: &[char], at: usize, unit: &[char]) -> (b: bool)
    requires
        at <= s@.len(),
    ensures
        b == (at + unit@.len() <= s@.len() && s@.subrange(at as int, at + unit@.len()) == unit@),
{
    if unit.len() > s.len() - at {
        return false;
    }
    let mut i: usize = 0;
    while i < unit.len()
        invariant
            at + unit@.len() <= s@.len(),
            i <= unit@.len(),
            unit@.len() == unit.len(),
            s@.len() == s.len(),
            at + unit.len() <= s.len(),
            forall|k: int| 0 <= k < i ==> s@[at + k] == unit@[k],
        decreases unit.len() - i,
    {
        if s[at + i] != unit[i] {
            assert(s@.subrange(at as int, at + unit@.len())[i as int] != unit@[i as int]);
            return false;
        }
        i = i + 1;
    }
    assert(s@.subrange(at as int, at + unit@.len()) =~= unit@);
    true
}


/// Reads bytes as UTF-8 text (`std::str::from_utf8`): `Some` exactly for
/// valid UTF-8, with the characters that the bytes encode.
#[verifier::external_body]
pub(crate) fn utf8_to_string(bytes: &[u8]) -> (r: Option<String>)
    ensures
        r is Some <==> vstd::utf8::valid_utf8(bytes@),
        r matches Some(s) ==> s@ == vstd::utf8::decode_utf8(bytes@),
{
    std::str::from_utf8(bytes).ok().map(|s| s.to_owned())
}

} // verus!
