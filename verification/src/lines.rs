//! The lines of a long text, found by byte offset.

use crate::ansi::{line_views, parse_ansi_line, plain_style, spans_of, Line};
use crate::complete::smaller;
use crate::text::{boundary, cut, lemma_ascii_byte, lemma_cut, lemma_ends, size};
use vstd::prelude::*;
use vstd::utf8::*;

verus! {

/// The byte that ends a line.
pub const NEWLINE: u8 = 0x0a;

/// Where the lines of a text begin: at its start and behind each line end.
pub open spec fn line_starts(bytes: Seq<u8>) -> Seq<int>
    decreases bytes.len(),
{
    if bytes.len() == 0 {
        seq![0int]
    } else if bytes.last() == NEWLINE {
        line_starts(bytes.drop_last()).push(bytes.len() as int)
    } else {
        line_starts(bytes.drop_last())
    }
}

/// The offsets of the lines of a text; an empty text has no lines. An offset is kept modulo the
/// range of `u32`.
pub open spec fn offsets_of(s: Seq<char>) -> Seq<u32> {
    if s.len() == 0 {
        Seq::empty()
    } else {
        let starts = line_starts(encode_utf8(s));
        Seq::new(starts.len(), |k: int| starts[k] as u32)
    }
}

/// The byte offset of the start of each line. Empty for an empty text.
pub fn compute_offsets(text: &str) -> (r: Vec<u32>)
    ensures
        r@ == offsets_of(text@),
{
    let bytes = text.as_bytes();
    if text.is_empty() {
        return Vec::new();
    }
    let mut v: Vec<u32> = vec![0u32];
    let mut i: usize = 0;
    assert(bytes@.take(0) =~= Seq::empty());
    while i < bytes.len()
        invariant
            bytes@ == encode_utf8(text@),
            i <= bytes@.len(),
            v@ =~= Seq::new(
                line_starts(bytes@.take(i as int)).len(),
                |k: int| line_starts(bytes@.take(i as int))[k] as u32,
            ),
        decreases bytes@.len() - i,
    {
        assert(bytes@.take(i + 1).drop_last() =~= bytes@.take(i as int));
        if bytes[i] == NEWLINE {
            let at: u32 = #[verifier::truncate] ((i + 1) as u32);
            v.push(at);
        }
        i += 1;
    }
    assert(bytes@.take(i as int) =~= bytes@);
    v
}

/// The characters between two byte offsets.
pub open spec fn between(s: Seq<char>, from: int, to: int) -> Seq<char> {
    decode_utf8(encode_utf8(s).subrange(from, to))
}

/// The byte offset at which line `i` ends.
pub open spec fn line_end(s: Seq<char>, offsets: Seq<u32>, i: int) -> int {
    if i + 1 < offsets.len() {
        offsets[i + 1] - 1
    } else {
        size(s) as int
    }
}

/// Line `i` can be cut out of the text.
pub open spec fn line_fits(s: Seq<char>, offsets: Seq<u32>, i: int) -> bool {
    &&& 0 <= offsets[i] <= line_end(s, offsets, i)
    &&& boundary(s, offsets[i] as int)
    &&& boundary(s, line_end(s, offsets, i))
}

/// The text of line `i`, without its line end.
pub open spec fn line_at(s: Seq<char>, offsets: Seq<u32>, i: int) -> Seq<char> {
    between(s, offsets[i] as int, line_end(s, offsets, i))
}

/// How many of `n` lines from line `scroll` on there are.
pub open spec fn window(total: int, scroll: int, n: int) -> int {
    if scroll >= total {
        0
    } else {
        smaller(n, total - scroll)
    }
}

/// Cuts out the text between two byte offsets.
fn slice<'a>(s: &'a str, from: usize, to: usize) -> (r: &'a str)
    requires
        from <= to,
        boundary(s@, from as int),
        boundary(s@, to as int),
    ensures
        r@ == between(s@, from as int, to as int),
{
    let front = cut(s, to).0;
    proof {
        let bytes = encode_utf8(s@);
        let part = encode_utf8(front@);
        lemma_cut(s@, to as int);
        lemma_cut(s@, from as int);
        encode_utf8_valid_utf8(s@);
        encode_utf8_valid_utf8(front@);
        assert(part =~= bytes.subrange(0, to as int));
        if from < to {
            is_char_boundary_iff_not_is_continuation_byte(bytes, from as int);
            is_char_boundary_iff_not_is_continuation_byte(part, from as int);
        } else {
            lemma_ends(front@);
        }
        assert(part.subrange(from as int, part.len() as int) =~= bytes.subrange(
            from as int,
            to as int,
        ));
    }
    cut(front, from).1
}

/// Reads the lines of a text that are in view: `n` lines from line `scroll` on, or as many as
/// there are.
pub fn visible_lines(text: &str, offsets: &[u32], scroll: usize, n: usize) -> (r: Vec<Line>)
    requires
        scroll < offsets@.len() ==> scroll + n <= usize::MAX,
        forall|i: int|
            scroll <= i < scroll + window(offsets@.len() as int, scroll as int, n as int)
                ==> #[trigger] line_fits(text@, offsets@, i),
    ensures
        line_views(r@) == Seq::new(
            window(offsets@.len() as int, scroll as int, n as int) as nat,
            |k: int| spans_of(line_at(text@, offsets@, scroll + k), plain_style()),
        ),
{
    let mut out: Vec<Line> = Vec::new();
    let last = offsets.len();
    if scroll >= last {
        assert(line_views(out@) =~= Seq::empty());
        return out;
    }
    let end: usize = if scroll + n <= last {
        scroll + n
    } else {
        last
    };
    let len = text.as_bytes().len();
    let mut i: usize = scroll;
    while i < end
        invariant
            last == offsets@.len(),
            len == size(text@),
            scroll < last,
            end == scroll + window(last as int, scroll as int, n as int),
            scroll <= i <= end <= last,
            forall|k: int| scroll <= k < end ==> #[trigger] line_fits(text@, offsets@, k),
            out@.len() == i - scroll,
            forall|k: int|
                0 <= k < out@.len() ==> (#[trigger] out@[k])@ == spans_of(
                    line_at(text@, offsets@, scroll + k),
                    plain_style(),
                ),
        decreases end - i,
    {
        assert(line_fits(text@, offsets@, i as int));
        proof {
            lemma_cut(text@, line_end(text@, offsets@, i as int));
        }
        let start = offsets[i] as usize;
        let line_end = if i + 1 < last {
            offsets[i + 1] as usize - 1
        } else {
            len
        };
        out.push(parse_ansi_line(slice(text, start, line_end)));
        i += 1;
    }
    assert(line_views(out@) =~= Seq::new(
        window(last as int, scroll as int, n as int) as nat,
        |k: int| spans_of(line_at(text@, offsets@, scroll + k), plain_style()),
    ));
    out
}

proof fn lemma_line_starts(bytes: Seq<u8>)
    ensures
        line_starts(bytes).len() >= 1,
        line_starts(bytes)[0] == 0,
        forall|k: int|
            1 <= k < line_starts(bytes).len() ==> 0 < #[trigger] line_starts(bytes)[k]
                <= bytes.len() && bytes[line_starts(bytes)[k] - 1] == NEWLINE,
        forall|j: int, k: int|
            0 <= j < k < line_starts(bytes).len() ==> line_starts(bytes)[j] < line_starts(bytes)[k],
        forall|p: int|
            0 <= p < bytes.len() && bytes[p] == NEWLINE ==> #[trigger] line_starts(bytes).contains(
                p + 1,
            ),
    decreases bytes.len(),
{
    if bytes.len() > 0 {
        let most = bytes.drop_last();
        let before = line_starts(most);
        let starts = line_starts(bytes);
        lemma_line_starts(most);
        assert forall|k: int| 1 <= k < starts.len() implies 0 < #[trigger] starts[k] <= bytes.len()
            && bytes[starts[k] - 1] == NEWLINE by {
            if k < before.len() {
                assert(starts[k] == before[k]);
                assert(most[before[k] - 1] == NEWLINE);
            }
        }
        assert forall|p: int| 0 <= p < bytes.len() && bytes[p] == NEWLINE implies
            #[trigger] starts.contains(p + 1) by {
            if p < most.len() {
                assert(most[p] == NEWLINE);
                assert(before.contains(p + 1));
                let k = choose|k: int| 0 <= k < before.len() && before[k] == p + 1;
                assert(starts[k] == p + 1);
            } else {
                assert(starts[starts.len() - 1] == p + 1);
            }
        }
    }
}

/// The offsets of a text that `u32` can address cut it into its lines: the first begins at the
/// start, each other one behind a line end, no line holds a line end, and every line can be cut
/// out.
pub proof fn law_lines(s: Seq<char>)
    requires
        0 < s.len(),
        size(s) <= u32::MAX,
    ensures
        offsets_of(s).len() >= 1,
        offsets_of(s)[0] == 0,
        forall|k: int|
            1 <= k < offsets_of(s).len() ==> 0 < #[trigger] offsets_of(s)[k] <= size(s)
                && encode_utf8(s)[offsets_of(s)[k] - 1] == NEWLINE,
        forall|k: int|
            0 <= k < offsets_of(s).len() ==> #[trigger] line_fits(s, offsets_of(s), k)
                && !encode_utf8(s).subrange(
                offsets_of(s)[k] as int,
                line_end(s, offsets_of(s), k),
            ).contains(NEWLINE),
{
    let bytes = encode_utf8(s);
    let starts = line_starts(bytes);
    let offs = offsets_of(s);
    lemma_line_starts(bytes);
    lemma_ends(s);
    assert forall|k: int| 0 <= k < offs.len() implies #[trigger] offs[k] == starts[k] && 0
        <= starts[k] <= size(s) by {
        if k > 0 {
            assert(starts[k] > 0);
        }
    }
    assert forall|k: int| 1 <= k < offs.len() implies 0 < #[trigger] offs[k] <= size(s)
        && bytes[offs[k] - 1] == NEWLINE by {
        assert(starts[k] > 0);
    }
    assert forall|k: int| 0 <= k < offs.len() implies #[trigger] line_fits(s, offs, k)
        && !bytes.subrange(offs[k] as int, line_end(s, offs, k)).contains(NEWLINE) by {
        if k > 0 {
            lemma_ascii_byte(s, offs[k] - 1);
        }
        if k + 1 < offs.len() {
            lemma_ascii_byte(s, offs[k + 1] - 1);
            assert(starts[k] < starts[k + 1]);
        }
        let line = bytes.subrange(offs[k] as int, line_end(s, offs, k));
        if line.contains(NEWLINE) {
            let q = choose|q: int| 0 <= q < line.len() && line[q] == NEWLINE;
            let p = offs[k] + q;
            assert(bytes[p] == NEWLINE);
            assert(starts.contains(p + 1));
            let m = choose|m: int| 0 <= m < starts.len() && starts[m] == p + 1;
            if m < k {
                assert(starts[m] < starts[k]);
            } else if m > k + 1 {
                assert(offs[k + 1] == starts[k + 1]);
                assert(starts[k + 1] < starts[m]);
            }
        }
    }
}

} // verus!
