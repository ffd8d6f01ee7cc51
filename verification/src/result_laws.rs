//! What holds of the results that are shown.

use crate::ansi::colors_view;
use crate::engine::{
    answers, can_yield, debug_print, joined, outcome, pretty, reads_as, rejected_with, rejection,
    rendered, spaces, whole, EvaluationView,
};
use crate::json::JsonView;
use crate::lines::{between, law_lines, line_at, line_end, offsets_of, NEWLINE};
use crate::session_laws::law_trimmed;
use crate::text::{
    boundary, head, lemma_ascii_char, lemma_cut, lemma_encode_concat, lemma_encode_injective,
    lemma_ends, size, white_space,
};
use vstd::prelude::*;
use vstd::utf8::*;

verus! {

/// What is shown for two lists of texts is what is shown for the one, a line feed, and what is
/// shown for the other.
pub proof fn law_shown_apart(a: Seq<Seq<char>>, b: Seq<Seq<char>>)
    requires
        a.len() > 0,
        b.len() > 0,
    ensures
        joined(a + b) == joined(a) + seq!['\n'] + joined(b),
    decreases b.len(),
{
    let all = a + b;
    if b.len() == 1 {
        assert(all.drop_last() =~= a);
        assert(joined(all) =~= joined(a) + seq!['\n'] + joined(b));
    } else {
        assert(all.drop_last() =~= a + b.drop_last());
        law_shown_apart(a, b.drop_last());
        assert(joined(all) =~= joined(a) + seq!['\n'] + joined(b));
    }
}

/// A text alone is shown as it is, and no text as nothing.
pub proof fn law_shown_alone(t: Seq<char>)
    ensures
        joined(seq![t]) == t,
        joined(Seq::empty()) == Seq::<char>::empty(),
{
}

/// The pieces of a text between its line feeds.
pub open spec fn cut_at_line_feeds(s: Seq<char>) -> Seq<Seq<char>>
    decreases s.len(),
{
    proof {
        s.index_of_first_ensures('\n');
    }
    match s.index_of_first('\n') {
        None => seq![s],
        Some(d) => seq![s.take(d)] + cut_at_line_feeds(s.skip(d + 1)),
    }
}

/// Texts of one line each are shown one below the other: cut at its line feeds, what is shown gives
/// the texts back, and there is one line feed less than there are texts.
pub proof fn law_one_below_the_other(list: Seq<Seq<char>>)
    requires
        list.len() > 0,
        forall|i: int| 0 <= i < list.len() ==> !(#[trigger] list[i]).contains('\n'),
    ensures
        cut_at_line_feeds(joined(list)) == list,
        joined(list).to_multiset().count('\n') == list.len() - 1,
    decreases list.len(),
{
    broadcast use vstd::seq_lib::group_to_multiset_ensures;

    let x = list[0];
    let s = joined(list);
    s.index_of_first_ensures('\n');
    x.to_multiset_ensures();
    if list.len() == 1 {
        assert(list =~= seq![x]);
        assert(s == x);
        if x.to_multiset().count('\n') > 0 {
            assert(x.contains('\n'));
        }
    } else {
        let rest = list.drop_first();
        assert(list =~= seq![x] + rest);
        law_shown_apart(seq![x], rest);
        assert forall|i: int| 0 <= i < rest.len() implies !(#[trigger] rest[i]).contains('\n') by {
            assert(rest[i] == list[i + 1]);
        }
        law_one_below_the_other(rest);
        let n = x.len() as int;
        assert(s == x + seq!['\n'] + joined(rest));
        assert(s[n] == '\n');
        assert(s.contains('\n'));
        let d = s.index_of_first('\n')->0;
        if d < n {
            assert(x[d] == s[d]);
            assert(x.contains('\n'));
        }
        assert(d == n);
        assert(s.take(d) =~= x);
        assert(s.skip(d + 1) =~= joined(rest));
        assert(cut_at_line_feeds(s) =~= list);
        vstd::seq_lib::lemma_multiset_commutative(x, seq!['\n']);
        vstd::seq_lib::lemma_multiset_commutative(x + seq!['\n'], joined(rest));
        if x.to_multiset().count('\n') > 0 {
            assert(x.contains('\n'));
        }
        assert(seq!['\n'] =~= Seq::<char>::empty().push('\n'));
        assert(seq!['\n'].to_multiset().count('\n') == 1);
    }
}

/// The outputs of a filter are shown one below the other, each as it would be alone, and they are
/// counted; an error that the filter left behind is told, and only then.
pub proof fn law_outputs_are_shown(
    a: Seq<JsonView>,
    b: Seq<JsonView>,
    v: JsonView,
    error: Option<JsonView>,
    indent: nat,
)
    ensures
        a.len() > 0 && b.len() > 0 ==> outcome(a + b, error, indent).text == outcome(
            a,
            error,
            indent,
        ).text + seq!['\n'] + outcome(b, error, indent).text,
        outcome(seq![v], error, indent).text == whole(v, indent).text,
        outcome(Seq::empty(), error, indent).text == Seq::<char>::empty(),
        outcome(a, error, indent).count == a.len(),
        error is None ==> outcome(a, error, indent).error is None,
        error matches Some(e) ==> outcome(a, error, indent).error == Some(
            seq!['r', 'u', 'n', 't', 'i', 'm', 'e', ' ', 'e', 'r', 'r', 'o', 'r', ':', ' ']
                + debug_print(e),
        ),
{
    let f = |l: Seq<JsonView>| Seq::new(l.len(), |i: int| rendered(l[i], indent));
    if a.len() > 0 && b.len() > 0 {
        law_shown_apart(f(a), f(b));
        assert(f(a + b) =~= f(a) + f(b));
    }
    assert(f(seq![v]) =~= seq![rendered(v, indent)]);
    assert(f(Seq::empty()) =~= Seq::empty());
    reveal_strlit("runtime error: ");
    assert("runtime error: "@ =~= seq![
        'r', 'u', 'n', 't', 'i', 'm', 'e', ' ', 'e', 'r', 'r', 'o', 'r', ':', ' ',
    ]);
}

/// A document shown whole counts its elements where it is an array and counts as one otherwise, and
/// nothing is wrong with it. A text that is no filter shows its message and nothing else.
pub proof fn law_whole_and_rejected(v: JsonView, indent: nat, message: Seq<char>)
    ensures
        v matches JsonView::Array(a) ==> whole(v, indent).count == a.len(),
        !(v is Array) ==> whole(v, indent).count == 1,
        whole(v, indent).error is None,
        rejection(message).text.len() == 0,
        rejection(message).count == 0,
        rejection(message).error == Some(message),
{
}

/// The escapes in which tokens are written: null, booleans, numbers, strings, brackets, braces,
/// keys, and the one that ends a colour.
pub open spec fn escapes() -> Seq<Seq<char>> {
    seq![
        seq!['\u{1b}', '[', '9', '0', 'm'],
        seq!['\u{1b}', '[', '3', '3', 'm'],
        seq!['\u{1b}', '[', '3', '3', 'm'],
        seq!['\u{1b}', '[', '3', '2', 'm'],
        seq!['\u{1b}', '[', '1', ';', '3', '7', 'm'],
        seq!['\u{1b}', '[', '1', ';', '3', '7', 'm'],
        seq!['\u{1b}', '[', '1', ';', '3', '6', 'm'],
        seq!['\u{1b}', '[', '0', 'm'],
    ]
}

/// A value is shown as the engine writes it with as many spaces to a level as were asked for, in
/// the colours of the tokens, and without a line end behind it.
pub proof fn law_written_by_the_engine(v: JsonView, indent: nat, pad: Seq<char>)
    requires
        pad.len() == indent,
        forall|i: int| 0 <= i < indent ==> #[trigger] pad[i] == ' ',
    ensures
        valid_utf8(pretty(v, pad, escapes(), true)) ==> rendered(v, indent) == decode_utf8(
            pretty(v, pad, escapes(), true),
        ),
{
    reveal_strlit("90");
    reveal_strlit("33");
    reveal_strlit("32");
    reveal_strlit("1;37");
    reveal_strlit("1;36");
    reveal_strlit("0");
    assert forall|k: int| 0 <= k < 8 implies #[trigger] colors_view()[k] =~= escapes()[k] by {}
    assert(colors_view() =~= escapes());
    assert(pad =~= spaces(indent));
}

/// The kinds of values by the names that jq gives them.
pub proof fn law_kinds(v: JsonView)
    ensures
        v is Null ==> v.kind() == seq!['n', 'u', 'l', 'l'],
        v is Bool ==> v.kind() == seq!['b', 'o', 'o', 'l', 'e', 'a', 'n'],
        v is Int || v is Double ==> v.kind() == seq!['n', 'u', 'm', 'b', 'e', 'r'],
        v is Text ==> v.kind() == seq!['s', 't', 'r', 'i', 'n', 'g'],
        v is Array ==> v.kind() == seq!['a', 'r', 'r', 'a', 'y'],
        v is Object ==> v.kind() == seq!['o', 'b', 'j', 'e', 'c', 't'],
{
    reveal_strlit("null");
    reveal_strlit("boolean");
    reveal_strlit("number");
    reveal_strlit("string");
    reveal_strlit("array");
    reveal_strlit("object");
    assert("null"@ =~= seq!['n', 'u', 'l', 'l']);
    assert("boolean"@ =~= seq!['b', 'o', 'o', 'l', 'e', 'a', 'n']);
    assert("number"@ =~= seq!['n', 'u', 'm', 'b', 'e', 'r']);
    assert("string"@ =~= seq!['s', 't', 'r', 'i', 'n', 'g']);
    assert("array"@ =~= seq!['a', 'r', 'r', 'a', 'y']);
    assert("object"@ =~= seq!['o', 'b', 'j', 'e', 'c', 't']);
}

/// What a text is answered, by what is left of it without the white space around it. Nothing shows
/// the whole document; what cannot be read as a filter shows a message for it; a filter shows the
/// outputs of a run of it on the document, and its error.
pub proof fn law_answers(
    v: JsonView,
    l: Seq<char>,
    t: Seq<char>,
    r: Seq<char>,
    indent: nat,
    e: EvaluationView,
)
    requires
        forall|i: int| 0 <= i < l.len() ==> white_space(#[trigger] l[i]),
        forall|i: int| 0 <= i < r.len() ==> white_space(#[trigger] r[i]),
        t.len() > 0 ==> !white_space(t[0]) && !white_space(t.last()),
        answers(v, l + t + r, indent, e),
    ensures
        t.len() == 0 ==> e == whole(v, indent),
        t.len() > 0 && (forall|f: qj::filter::Filter| !#[trigger] reads_as(t, f)) ==> exists|
            message: Seq<char>,
        | #[trigger] rejected_with(t, message) && e == rejection(message),
        t.len() > 0 && (exists|f: qj::filter::Filter| #[trigger] reads_as(t, f)) ==> exists|
            f: qj::filter::Filter,
            outputs: Seq<JsonView>,
            error: Option<JsonView>,
        |
            reads_as(t, f) && #[trigger] can_yield(f, v, outputs, error) && e == outcome(
                outputs,
                error,
                indent,
            ),
{
    law_trimmed(l, t, r);
}

proof fn lemma_between(s: Seq<char>, from: int, to: int)
    requires
        from <= to,
        boundary(s, from),
        boundary(s, to),
    ensures
        encode_utf8(between(s, from, to)) == encode_utf8(s).subrange(from, to),
{
    let bytes = encode_utf8(s);
    let front = head(s, to);
    let part = encode_utf8(front);
    lemma_cut(s, to);
    lemma_cut(s, from);
    encode_utf8_valid_utf8(s);
    encode_utf8_valid_utf8(front);
    assert(part =~= bytes.subrange(0, to));
    if from < to {
        is_char_boundary_iff_not_is_continuation_byte(bytes, from);
        is_char_boundary_iff_not_is_continuation_byte(part, from);
    } else {
        lemma_ends(front);
    }
    assert(part.subrange(from, part.len() as int) =~= bytes.subrange(from, to));
    lemma_cut(front, from);
}

/// The lines of a text that `u32` can address, put together again with a line feed between each
/// two, are the text.
pub proof fn law_lines_make_up_the_text(s: Seq<char>)
    requires
        0 < s.len(),
        size(s) <= u32::MAX,
    ensures
        joined(
            Seq::new(offsets_of(s).len(), |k: int| line_at(s, offsets_of(s), k)),
        ) == s,
        forall|k: int|
            0 <= k < offsets_of(s).len() ==> !encode_utf8(
                #[trigger] line_at(s, offsets_of(s), k),
            ).contains(10u8),
{
    let offs = offsets_of(s);
    let bytes = encode_utf8(s);
    let lines = Seq::new(offs.len(), |k: int| line_at(s, offs, k));
    law_lines(s);
    let n = offs.len() as int;
    lemma_lines_so_far(s, n - 1);
    assert(lines.take(n) =~= lines);
    assert(bytes.subrange(0, bytes.len() as int) =~= bytes);
    lemma_encode_injective(joined(lines), s);
    assert forall|k: int| 0 <= k < n implies !encode_utf8(
        #[trigger] line_at(s, offs, k),
    ).contains(10u8) by {
        assert(crate::lines::line_fits(s, offs, k));
        lemma_between(s, offs[k] as int, line_end(s, offs, k));
    }
}

proof fn lemma_lines_so_far(s: Seq<char>, k: int)
    requires
        0 < s.len(),
        size(s) <= u32::MAX,
        0 <= k < offsets_of(s).len(),
    ensures
        encode_utf8(
            joined(
                Seq::new(offsets_of(s).len(), |k: int| line_at(s, offsets_of(s), k)).take(k + 1),
            ),
        ) == encode_utf8(s).subrange(0, line_end(s, offsets_of(s), k)),
    decreases k,
{
    let offs = offsets_of(s);
    let bytes = encode_utf8(s);
    let lines = Seq::new(offs.len(), |k: int| line_at(s, offs, k));
    law_lines(s);
    assert(crate::lines::line_fits(s, offs, k));
    let end = line_end(s, offs, k);
    lemma_between(s, offs[k] as int, end);
    lemma_cut(s, end);
    let now = lines.take(k + 1);
    if k == 0 {
        assert(now =~= seq![line_at(s, offs, 0)]);
    } else {
        lemma_lines_so_far(s, k - 1);
        let before = lines.take(k);
        assert(now.drop_last() =~= before);
        assert(now.last() == line_at(s, offs, k));
        let j = joined(before);
        assert(offs[k] > 0 && bytes[offs[k] - 1] == NEWLINE);
        lemma_ascii_char('\n');
        assert(joined(now) =~= j + (seq!['\n'] + line_at(s, offs, k)));
        lemma_encode_concat(j, seq!['\n'] + line_at(s, offs, k));
        lemma_encode_concat(seq!['\n'], line_at(s, offs, k));
        assert(line_end(s, offs, k - 1) == offs[k] - 1);
        assert(bytes.subrange(0, end) =~= bytes.subrange(0, offs[k] - 1) + (seq![NEWLINE]
            + bytes.subrange(offs[k] as int, end)));
    }
}

} // verus!
