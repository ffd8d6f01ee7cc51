//! Text as a sequence of characters, cut at byte offsets.

use vstd::prelude::*;
use vstd::utf8::*;

verus! {

/// Number of bytes that `s` takes in UTF-8.
pub open spec fn size(s: Seq<char>) -> nat {
    encode_utf8(s).len()
}

/// Byte offset `at` lies between two characters of `s`, or at one of its ends.
pub open spec fn boundary(s: Seq<char>, at: int) -> bool {
    is_char_boundary(encode_utf8(s), at)
}

/// The characters of `s` before byte offset `at`.
pub open spec fn head(s: Seq<char>, at: int) -> Seq<char> {
    decode_utf8(encode_utf8(s).subrange(0, at))
}

/// The characters of `s` from byte offset `at` on.
pub open spec fn tail(s: Seq<char>, at: int) -> Seq<char> {
    decode_utf8(encode_utf8(s).subrange(at, encode_utf8(s).len() as int))
}

/// UTF-8 encodes a concatenation piece by piece.
pub proof fn lemma_encode_concat(a: Seq<char>, b: Seq<char>)
    ensures
        encode_utf8(a + b) == encode_utf8(a) + encode_utf8(b),
    decreases a.len(),
{
    if a.len() == 0 {
        assert(a + b =~= b);
    } else {
        assert((a + b).drop_first() =~= a.drop_first() + b);
        lemma_encode_concat(a.drop_first(), b);
        assert(encode_utf8(a + b) =~= encode_utf8(a) + encode_utf8(b));
    }
}

/// Two texts with the same bytes are the same text.
pub proof fn lemma_encode_injective(a: Seq<char>, b: Seq<char>)
    requires
        encode_utf8(a) == encode_utf8(b),
    ensures
        a == b,
{
    encode_utf8_decode_utf8(a);
    encode_utf8_decode_utf8(b);
}

/// The seam of a concatenation is a character boundary.
proof fn lemma_seam_boundary(a: Seq<char>, b: Seq<char>)
    ensures
        boundary(a + b, size(a) as int),
    decreases a.len(),
{
    encode_utf8_valid_utf8(a + b);
    if a.len() > 0 {
        let s = a + b;
        let bytes = encode_utf8(s);
        lemma_encode_concat(a, b);
        encode_utf8_first_scalar(s);
        assert(s.drop_first() =~= a.drop_first() + b);
        assert(pop_first_scalar(bytes) =~= encode_utf8(s.drop_first()));
        lemma_seam_boundary(a.drop_first(), b);
    }
}

/// Cutting a concatenation at its seam gives the two pieces back.
pub proof fn lemma_cut_at_seam(a: Seq<char>, b: Seq<char>)
    ensures
        boundary(a + b, size(a) as int),
        head(a + b, size(a) as int) == a,
        tail(a + b, size(a) as int) == b,
        size(a + b) == size(a) + size(b),
{
    lemma_seam_boundary(a, b);
    lemma_encode_concat(a, b);
    let bytes = encode_utf8(a + b);
    assert(bytes.subrange(0, size(a) as int) =~= encode_utf8(a));
    assert(bytes.subrange(size(a) as int, bytes.len() as int) =~= encode_utf8(b));
    encode_utf8_decode_utf8(a);
    encode_utf8_decode_utf8(b);
}

/// A cut at a boundary takes a text apart without loss, and the first piece has as many bytes as
/// the offset says.
pub proof fn lemma_cut(s: Seq<char>, at: int)
    requires
        boundary(s, at),
    ensures
        0 <= at <= size(s),
        s == head(s, at) + tail(s, at),
        size(head(s, at)) == at,
        size(tail(s, at)) == size(s) - at,
        encode_utf8(head(s, at)) == encode_utf8(s).subrange(0, at),
        encode_utf8(tail(s, at)) == encode_utf8(s).subrange(at, size(s) as int),
{
    let bytes = encode_utf8(s);
    encode_utf8_valid_utf8(s);
    encode_utf8_decode_utf8(s);
    valid_utf8_split(bytes, at);
    decode_utf8_split(bytes, at);
    decode_utf8_encode_utf8(bytes.subrange(0, at));
    decode_utf8_encode_utf8(bytes.subrange(at, bytes.len() as int));
}

/// Both ends of a text are boundaries.
pub proof fn lemma_ends(s: Seq<char>)
    ensures
        boundary(s, 0),
        boundary(s, size(s) as int),
        head(s, size(s) as int) == s,
        tail(s, 0) == s,
        head(s, 0) == Seq::<char>::empty(),
        tail(s, size(s) as int) == Seq::<char>::empty(),
{
    let e = Seq::<char>::empty();
    assert(s + e =~= s);
    assert(e + s =~= s);
    lemma_cut_at_seam(s, e);
    lemma_cut_at_seam(e, s);
}

/// The byte offset one character to the left of `at`; the start where there is none.
pub open spec fn left_of(s: Seq<char>, at: int) -> int {
    if at > 0 {
        size(head(s, at).drop_last()) as int
    } else {
        0
    }
}

/// The byte offset one character to the right of `at`; the end where there is none.
pub open spec fn right_of(s: Seq<char>, at: int) -> int {
    if at < size(s) {
        size(head(s, at).push(tail(s, at).first())) as int
    } else {
        size(s) as int
    }
}

/// One character to the left is a boundary, and that character stands between the two.
pub proof fn lemma_left_of(s: Seq<char>, at: int)
    requires
        boundary(s, at),
        at > 0,
    ensures
        head(s, at).len() > 0,
        boundary(s, left_of(s, at)),
        left_of(s, at) < at,
        head(s, left_of(s, at)) == head(s, at).drop_last(),
        tail(s, left_of(s, at)) == seq![head(s, at).last()] + tail(s, at),
        right_of(s, left_of(s, at)) == at,
{
    lemma_cut(s, at);
    let h = head(s, at);
    let t = tail(s, at);
    if h.len() == 0 {
        assert(size(h) == 0);
    }
    let c = h.last();
    let front = h.drop_last();
    assert(h =~= front + seq![c]);
    assert(h =~= front.push(c));
    assert(s =~= front + (seq![c] + t));
    lemma_cut_at_seam(front, seq![c] + t);
    lemma_cut_at_seam(front, seq![c]);
    encode_utf8_first_scalar(seq![c]);
    assert(size(seq![c]) > 0);
}

/// One character to the right is a boundary, and that character stands between the two.
pub proof fn lemma_right_of(s: Seq<char>, at: int)
    requires
        boundary(s, at),
        at < size(s),
    ensures
        tail(s, at).len() > 0,
        boundary(s, right_of(s, at)),
        right_of(s, at) > at,
        head(s, right_of(s, at)) == head(s, at).push(tail(s, at).first()),
        tail(s, right_of(s, at)) == tail(s, at).drop_first(),
        left_of(s, right_of(s, at)) == at,
{
    lemma_cut(s, at);
    let h = head(s, at);
    let t = tail(s, at);
    if t.len() == 0 {
        assert(size(t) == 0);
    }
    let c = t.first();
    assert(s =~= h.push(c) + t.drop_first());
    lemma_cut_at_seam(h.push(c), t.drop_first());
    assert(h.push(c) =~= h + seq![c]);
    lemma_cut_at_seam(h, seq![c]);
    encode_utf8_first_scalar(seq![c]);
    assert(size(seq![c]) > 0);
    assert(h.push(c).drop_last() =~= h);
}

/// One ASCII character is one byte, that of its code.
pub proof fn lemma_ascii_char(c: char)
    requires
        (c as u32) < 0x80,
    ensures
        encode_utf8(seq![c]) == seq![c as u8],
        size(seq![c]) == 1,
{
    assert(is_ascii_chars(seq![c]));
    is_ascii_chars_encode_utf8(seq![c]);
    assert(encode_utf8(seq![c]) =~= seq![c as u8]);
}

/// A character whose first byte is ASCII is that byte.
proof fn lemma_first_byte(s: Seq<char>)
    requires
        s.len() > 0,
        encode_utf8(s)[0] < 0x80,
    ensures
        s[0] as u32 == encode_utf8(s)[0] as u32,
        encode_scalar(s[0] as u32).len() == 1,
{
    let c = s[0] as u32;
    let rest = encode_utf8(s.drop_first());
    char_is_scalar(s[0]);
    assert(encode_utf8(s)[0] == encode_scalar(c)[0]);
    assert(has_width_1_encoding(c) ==> leading_byte_width_1(c) == c) by (bit_vector);
    assert(has_width_2_encoding(c) ==> leading_byte_width_2(c) >= 0x80) by (bit_vector);
    assert(has_width_3_encoding(c) ==> leading_byte_width_3(c) >= 0x80) by (bit_vector);
    assert(has_width_4_encoding(c) ==> leading_byte_width_4(c) >= 0x80) by (bit_vector);
}

/// An ASCII byte of a text is a character of its own.
pub proof fn lemma_ascii_byte(s: Seq<char>, at: int)
    requires
        0 <= at < size(s),
        encode_utf8(s)[at] < 0x80,
    ensures
        boundary(s, at),
        boundary(s, at + 1),
        head(s, at + 1) == head(s, at).push(encode_utf8(s)[at] as char),
        tail(s, at) == seq![encode_utf8(s)[at] as char] + tail(s, at + 1),
{
    let bytes = encode_utf8(s);
    encode_utf8_valid_utf8(s);
    is_char_boundary_iff_not_is_continuation_byte(bytes, at);
    lemma_cut(s, at);
    let h = head(s, at);
    let t = tail(s, at);
    assert(encode_utf8(t)[0] == bytes[at]);
    if t.len() == 0 {
        assert(size(t) == 0);
    }
    lemma_first_byte(t);
    let c = t[0];
    let b = bytes[at];
    char_u32_cast(c, b as u32);
    assert((b as u32) as char == b as char);
    let rest = t.drop_first();
    assert(t =~= seq![c] + rest);
    assert(s =~= h.push(c) + rest);
    lemma_ascii_char(c);
    lemma_encode_concat(h, seq![c]);
    assert(h.push(c) =~= h + seq![c]);
    lemma_cut_at_seam(h.push(c), rest);
}

/// Cuts `s` at byte offset `at`.
pub fn cut<'a>(s: &'a str, at: usize) -> (r: (&'a str, &'a str))
    requires
        boundary(s@, at as int),
    ensures
        r.0@ == head(s@, at as int),
        r.1@ == tail(s@, at as int),
{
    let r = s.split_at(at);
    proof {
        encode_utf8_decode_utf8(r.0@);
        encode_utf8_decode_utf8(r.1@);
    }
    r
}

/// The number of bytes of `s`.
pub fn byte_len(s: &str) -> (r: usize)
    ensures
        r == size(s@),
{
    s.as_bytes().len()
}

/// The characters of `s`.
pub fn chars_of(s: &str) -> (r: Vec<char>)
    ensures
        r@ == s@,
{
    let mut r: Vec<char> = Vec::new();
    for c in it: s.chars()
        invariant
            r@ == it.seq().take(it.index() as int),
            it.seq() == s@,
    {
        r.push(c);
    }
    r
}

/// `c` has the Unicode property `White_Space`.
pub open spec fn white_space(c: char) -> bool {
    let n = c as u32;
    ||| 0x09 <= n <= 0x0d
    ||| n == 0x20
    ||| n == 0x85
    ||| n == 0xa0
    ||| n == 0x1680
    ||| 0x2000 <= n <= 0x200a
    ||| n == 0x2028
    ||| n == 0x2029
    ||| n == 0x202f
    ||| n == 0x205f
    ||| n == 0x3000
}

/// The standard library's `char::is_whitespace`: whether `c` has the Unicode property
/// `White_Space`, which twenty-five characters have.
pub assume_specification[ char::is_whitespace ](c: char) -> (r: bool)
    ensures
        r == white_space(c),
;

/// `c` is an ASCII letter or digit.
pub open spec fn ascii_alphanumeric(c: char) -> bool {
    ||| '0' <= c <= '9'
    ||| 'A' <= c <= 'Z'
    ||| 'a' <= c <= 'z'
}

/// `c` is a letter or a numeral of Unicode beyond ASCII.
pub uninterp spec fn wide_alphanumeric(c: char) -> bool;

/// `c` is a letter or a numeral.
pub open spec fn alphanumeric(c: char) -> bool {
    if (c as u32) < 0x80 {
        ascii_alphanumeric(c)
    } else {
        wide_alphanumeric(c)
    }
}

/// The standard library's `char::is_alphanumeric`. Of ASCII these are the letters and the digits.
/// Beyond ASCII the answer is named, not spelled out: it comes from a Unicode table.
pub assume_specification[ char::is_alphanumeric ](c: char) -> (r: bool)
    ensures
        (c as u32) < 0x80 ==> r == ascii_alphanumeric(c),
        (c as u32) >= 0x80 ==> r == wide_alphanumeric(c),
;

/// The standard library's `String::push`: puts one character at the end.
pub assume_specification[ String::push ](s: &mut String, c: char)
    ensures
        final(s)@ == old(s)@.push(c),
;

/// The text that bytes stand for where some of them may not be UTF-8.
pub uninterp spec fn lossy_text(bytes: Seq<u8>) -> Seq<char>;

/// Wherever `bytes` are whole lines followed by text in UTF-8, `text` is what the lines stand for,
/// up to a line feed, followed by that text.
pub open spec fn read_by_lines(bytes: Seq<u8>, text: Seq<char>) -> bool {
    forall|a: Seq<u8>, b: Seq<char>|
        #![trigger lossy_text(a), encode_utf8(b)]
        bytes == a + encode_utf8(b) && (a.len() == 0 || a.last() == 0x0a) ==> {
            &&& text == lossy_text(a) + b
            &&& lossy_text(a).len() > 0 ==> text[lossy_text(a).len() - 1] == '\n'
        }
}

/// The standard library's `String::from_utf8_lossy`: the text that the bytes encode. What becomes
/// of bytes that are not UTF-8 is named, not spelled out. A line feed is a character of its own
/// whatever stands around it, so text behind one is read as it was written, and what stands up to it
/// as it would be alone.
#[verifier::external_body]
pub(crate) fn lossy(bytes: &[u8]) -> (r: String)
    ensures
        r@ == lossy_text(bytes@),
        valid_utf8(bytes@) ==> r@ == decode_utf8(bytes@),
        read_by_lines(bytes@, r@),
{
    String::from_utf8_lossy(bytes).into_owned()
}

/// `s` without white space at either end.
pub open spec fn trimmed(s: Seq<char>) -> Seq<char>
    decreases s.len(),
{
    if s.len() > 0 && white_space(s.first()) {
        trimmed(s.drop_first())
    } else if s.len() > 0 && white_space(s.last()) {
        trimmed(s.drop_last())
    } else {
        s
    }
}

/// The characters of each text of a list.
pub open spec fn texts(v: Seq<String>) -> Seq<Seq<char>> {
    Seq::new(v.len(), |i: int| v[i]@)
}

/// The text made of the characters `from..to`.
pub fn text_of(chars: &Vec<char>, from: usize, to: usize) -> (r: String)
    requires
        from <= to <= chars@.len(),
    ensures
        r@ == chars@.subrange(from as int, to as int),
{
    let mut r = String::new();
    let mut i: usize = from;
    while i < to
        invariant
            from <= i <= to <= chars@.len(),
            r@ == chars@.subrange(from as int, i as int),
        decreases to - i,
    {
        r.push(chars[i]);
        i += 1;
    }
    r
}

/// The byte offset one character to the left of `at`.
pub fn step_left(s: &str, at: usize) -> (r: usize)
    requires
        boundary(s@, at as int),
    ensures
        r == left_of(s@, at as int),
        boundary(s@, r as int),
{
    if at == 0 {
        return 0;
    }
    proof {
        lemma_left_of(s@, at as int);
    }
    let chars = chars_of(cut(s, at).0);
    let front = text_of(&chars, 0, chars.len() - 1);
    assert(front@ =~= head(s@, at as int).drop_last());
    byte_len(front.as_str())
}

/// The byte offset one character to the right of `at`.
pub fn step_right(s: &str, at: usize) -> (r: usize)
    requires
        boundary(s@, at as int),
    ensures
        r == right_of(s@, at as int),
        boundary(s@, r as int),
{
    let len = byte_len(s);
    proof {
        lemma_cut(s@, at as int);
    }
    if at == len {
        return len;
    }
    proof {
        lemma_right_of(s@, at as int);
    }
    let (before, after) = cut(s, at);
    let mut front = before.to_owned();
    front.push(chars_of(after)[0]);
    byte_len(front.as_str())
}

/// `s` without white space at either end.
pub fn trim(s: &str) -> (r: String)
    ensures
        r@ == trimmed(s@),
{
    let chars = chars_of(s);
    let mut lo: usize = 0;
    let mut hi: usize = chars.len();
    assert(s@.subrange(0, hi as int) =~= s@);
    while lo < hi && chars[lo].is_whitespace()
        invariant
            lo <= hi == chars@.len(),
            chars@ == s@,
            trimmed(s@.subrange(lo as int, hi as int)) == trimmed(s@),
        ensures
            lo == hi || !white_space(s@[lo as int]),
        decreases hi - lo,
    {
        assert(s@.subrange(lo as int, hi as int).drop_first() =~= s@.subrange(lo + 1, hi as int));
        lo += 1;
    }
    while lo < hi && chars[hi - 1].is_whitespace()
        invariant
            lo <= hi <= chars@.len(),
            chars@ == s@,
            lo == hi || !white_space(s@[lo as int]),
            trimmed(s@.subrange(lo as int, hi as int)) == trimmed(s@),
        ensures
            lo == hi || !white_space(s@[hi - 1]),
        decreases hi - lo,
    {
        assert(s@.subrange(lo as int, hi as int).drop_last() =~= s@.subrange(lo as int, hi - 1));
        hi -= 1;
    }
    text_of(&chars, lo, hi)
}

/// Whether `a` and `b` hold the same characters.
pub fn same_text(a: &str, b: &str) -> (r: bool)
    ensures
        r == (a@ == b@),
{
    let x = a.as_bytes();
    let y = b.as_bytes();
    if x.len() != y.len() {
        return false;
    }
    let mut i: usize = 0;
    while i < x.len()
        invariant
            x@ == encode_utf8(a@),
            y@ == encode_utf8(b@),
            x@.len() == y@.len(),
            i <= x@.len(),
            forall|k: int| 0 <= k < i ==> x@[k] == y@[k],
        decreases x@.len() - i,
    {
        if x[i] != y[i] {
            return false;
        }
        i += 1;
    }
    proof {
        assert(x@ =~= y@);
        lemma_encode_injective(a@, b@);
    }
    true
}

/// Whether `s` begins with the characters of `prefix`.
pub fn begins_with(s: &str, prefix: &Vec<char>) -> (r: bool)
    ensures
        r == prefix@.is_prefix_of(s@),
{
    let chars = chars_of(s);
    if chars.len() < prefix.len() {
        return false;
    }
    let mut i: usize = 0;
    while i < prefix.len()
        invariant
            chars@ == s@,
            i <= prefix@.len() <= chars@.len(),
            forall|k: int| 0 <= k < i ==> prefix@[k] == chars@[k],
        decreases prefix@.len() - i,
    {
        if chars[i] != prefix[i] {
            return false;
        }
        i += 1;
    }
    assert(prefix@ =~= s@.subrange(0, prefix@.len() as int));
    true
}

/// Whether `list` holds `item`.
pub fn lists_text(list: &Vec<String>, item: &str) -> (r: bool)
    ensures
        r == texts(list@).contains(item@),
{
    let mut i: usize = 0;
    while i < list.len()
        invariant
            i <= list@.len(),
            forall|k: int| 0 <= k < i ==> list@[k]@ != item@,
        decreases list@.len() - i,
    {
        if same_text(list[i].as_str(), item) {
            assert(texts(list@)[i as int] == item@);
            return true;
        }
        i += 1;
    }
    false
}

/// `n` in decimal.
pub open spec fn decimal(n: nat) -> Seq<char>
    decreases n,
{
    if n < 10 {
        seq![digit(n)]
    } else {
        decimal(n / 10).push(digit(n % 10))
    }
}

/// The character for a number below ten.
pub open spec fn digit(n: nat) -> char {
    (n + '0' as nat) as char
}

/// Writes `n` in decimal.
pub fn decimal_text(n: u128) -> (r: String)
    ensures
        r@ == decimal(n as nat),
    decreases n,
{
    let d: u8 = (n % 10) as u8;
    let c: char = (d + 48u8) as char;
    let mut r = if n < 10 {
        String::new()
    } else {
        decimal_text(n / 10)
    };
    r.push(c);
    r
}

} // verus!
