//! The history file: one filter to a line.

use crate::app::State;
use crate::lines::NEWLINE;
use crate::text::{chars_of, lossy, lossy_text, text_of, texts, trimmed, white_space};
use vstd::prelude::*;
use vstd::utf8::*;

verus! {

/// A line without the carriage return that ends it.
pub open spec fn without_return(line: Seq<char>) -> Seq<char> {
    if line.len() > 0 && line.last() == '\r' {
        line.drop_last()
    } else {
        line
    }
}

/// A list of one line, or of none where the line is empty.
pub open spec fn kept(line: Seq<char>) -> Seq<Seq<char>> {
    if line.len() == 0 {
        Seq::empty()
    } else {
        seq![line]
    }
}

/// The entries that a history text holds: its lines, but for empty ones. A line ends at a line
/// feed, or a carriage return and a line feed; the last one may go without.
pub open spec fn entries(text: Seq<char>) -> Seq<Seq<char>>
    decreases text.len(),
{
    proof {
        text.index_of_first_ensures('\n');
    }
    match text.index_of_first('\n') {
        None => kept(text),
        Some(d) => kept(without_return(text.take(d))) + entries(text.skip(d + 1)),
    }
}

/// A line that a history file can hold.
pub open spec fn is_entry(line: Seq<char>) -> bool {
    line.len() > 0 && !line.contains('\n') && line.last() != '\r'
}

/// A line as it is written to a history file.
pub open spec fn entry_text(line: Seq<char>) -> Seq<char> {
    line.push('\n')
}

/// `bytes` are a history file that is empty or ends with a line feed, and a line written behind it.
pub open spec fn appended(bytes: Seq<u8>, file: Seq<u8>, line: Seq<char>) -> bool {
    &&& file.len() == 0 || file.last() == NEWLINE
    &&& is_entry(line)
    &&& bytes == file + encode_utf8(entry_text(line))
}

/// Reads the entries of a history file. What is written behind a file is read back behind what is
/// read from the file alone, whatever bytes the file holds.
pub fn load_history(bytes: &[u8]) -> (r: Vec<String>)
    ensures
        texts(r@) == entries(lossy_text(bytes@)),
        valid_utf8(bytes@) ==> texts(r@) == entries(decode_utf8(bytes@)),
        bytes@.len() == 0 ==> r@.len() == 0,
        forall|file: Seq<u8>, line: Seq<char>| #[trigger]
            appended(bytes@, file, line) ==> texts(r@) == entries(lossy_text(file)).push(line),
{
    let text = lossy(bytes);
    proof {
        assert forall|file: Seq<u8>, line: Seq<char>| #[trigger]
            appended(bytes@, file, line) implies entries(text@) == entries(
            lossy_text(file),
        ).push(line) by {
            let before = lossy_text(file);
            assert(text@ == before + line.push('\n'));
            if before.len() > 0 {
                assert(before.last() == text@[before.len() - 1]);
            }
            law_history_kept(before, line);
        }
        if bytes@.len() == 0 {
            assert(bytes@ =~= Seq::empty());
            assert(encode_utf8(Seq::<char>::empty()) =~= bytes@);
            encode_utf8_decode_utf8(Seq::<char>::empty());
            encode_utf8_valid_utf8(Seq::<char>::empty());
            text@.index_of_first_ensures('\n');
            assert(entries(text@) =~= Seq::empty());
        }
    }
    let chars = chars_of(text.as_str());
    let n = chars.len();
    let mut r: Vec<String> = Vec::new();
    let mut from: usize = 0;
    assert(chars@.skip(0) =~= chars@);
    assert(texts(r@) + entries(chars@) =~= entries(chars@));
    loop
        invariant
            n == chars@.len(),
            chars@ == lossy_text(bytes@),
            valid_utf8(bytes@) ==> chars@ == decode_utf8(bytes@),
            bytes@.len() == 0 ==> entries(chars@).len() == 0,
            forall|file: Seq<u8>, line: Seq<char>| #[trigger]
                appended(bytes@, file, line) ==> entries(chars@) == entries(
                    lossy_text(file),
                ).push(line),
            from <= n,
            texts(r@) + entries(chars@.skip(from as int)) == entries(chars@),
        decreases n - from,
    {
        let ghost left = chars@.skip(from as int);
        let ghost so_far = texts(r@);
        let mut to: usize = from;
        while to < n && chars[to] != '\n'
            invariant
                n == chars@.len(),
                from <= to <= n,
                forall|k: int| from <= k < to ==> chars@[k] != '\n',
            ensures
                to == n || chars@[to as int] == '\n',
            decreases n - to,
        {
            to += 1;
        }
        let end: usize = if to < n && to > from && chars[to - 1] == '\r' {
            to - 1
        } else {
            to
        };
        let line = text_of(&chars, from, end);
        proof {
            left.index_of_first_ensures('\n');
            if to < n {
                assert(left[to - from] == '\n');
                assert(left.contains('\n'));
                let d = left.index_of_first('\n')->0;
                assert(left[d] == chars@[from + d]);
                assert(d == to - from);
                assert(line@ =~= without_return(left.take(d)));
                assert(left.skip(d + 1) =~= chars@.skip(to + 1));
            } else {
                assert(line@ =~= left);
                if left.contains('\n') {
                    let d = left.index_of_first('\n')->0;
                    assert(left[d] == chars@[from + d]);
                }
            }
        }
        let ghost shown = line@;
        if end > from {
            r.push(line);
        }
        assert(texts(r@) =~= so_far + kept(shown));
        if to == n {
            assert(texts(r@) =~= entries(chars@));
            return r;
        }
        from = to + 1;
        assert(texts(r@) + entries(chars@.skip(from as int)) =~= so_far + entries(left));
    }
}

/// What is written behind a history file to remember a filter.
pub fn history_entry(line: &str) -> (r: String)
    ensures
        r@ == entry_text(line@),
{
    let mut r = line.to_owned();
    r.push('\n');
    r
}

/// What is remembered is read back: an entry written behind a history text that is empty or ends
/// with a line feed is the last entry that is read from it, behind those that were there before.
pub proof fn law_history_kept(file: Seq<char>, line: Seq<char>)
    requires
        file.len() == 0 || file.last() == '\n',
        is_entry(line),
    ensures
        entries(file + line.push('\n')) == entries(file).push(line),
    decreases file.len(),
{
    let text = file + line.push('\n');
    text.index_of_first_ensures('\n');
    file.index_of_first_ensures('\n');
    if file.len() == 0 {
        assert(text =~= line.push('\n'));
        let n = line.len() as int;
        assert(text[n] == '\n');
        assert(text.contains('\n'));
        let d = text.index_of_first('\n')->0;
        if d < n {
            assert(line[d] == text[d]);
        }
        assert(d == n);
        assert(text.take(d) =~= line);
        let rest = text.skip(d + 1);
        assert(rest =~= Seq::empty());
        rest.index_of_first_ensures('\n');
        assert(entries(rest) =~= Seq::empty());
        assert(entries(file) =~= Seq::empty());
        assert(entries(text) =~= seq![line]);
    } else {
        assert(file[file.len() - 1] == '\n');
        assert(file.contains('\n'));
        let d = file.index_of_first('\n')->0;
        assert(text[d] == '\n');
        assert(text.contains('\n'));
        let e = text.index_of_first('\n')->0;
        if e < d {
            assert(file[e] == text[e]);
        }
        assert(e == d);
        let rest = file.skip(d + 1);
        assert(text.take(d) =~= file.take(d));
        assert(text.skip(d + 1) =~= rest + line.push('\n'));
        if rest.len() > 0 {
            assert(rest.last() == file.last());
        }
        law_history_kept(rest, line);
        let first = kept(without_return(file.take(d)));
        assert(first + entries(rest).push(line) =~= (first + entries(rest)).push(line));
    }
}

/// No entry is empty, and none holds a line feed.
pub proof fn law_entries_are_lines(text: Seq<char>)
    ensures
        forall|i: int|
            0 <= i < entries(text).len() ==> (#[trigger] entries(text)[i]).len() > 0 && !entries(
                text,
            )[i].contains('\n'),
    decreases text.len(),
{
    text.index_of_first_ensures('\n');
    match text.index_of_first('\n') {
        None => {},
        Some(d) => {
            let line = text.take(d);
            let shown = without_return(line);
            let rest = entries(text.skip(d + 1));
            law_entries_are_lines(text.skip(d + 1));
            if shown.contains('\n') {
                let k = choose|k: int| 0 <= k < shown.len() && shown[k] == '\n';
                assert(text[k] == '\n');
            }
            assert forall|i: int| 0 <= i < entries(text).len() implies (
            #[trigger] entries(text)[i]).len() > 0 && !entries(text)[i].contains('\n') by {
                let n = kept(shown).len() as int;
                if i >= n {
                    assert(entries(text)[i] == rest[i - n]);
                }
            }
        },
    }
}

/// A filter that is remembered can be an entry of the history file, unless a line feed stands in
/// it.
pub proof fn law_remembered_is_entry(s: State)
    requires
        s.is_new(),
        !s.input.contains('\n'),
    ensures
        is_entry(trimmed(s.input)),
{
    lemma_trimmed(s.input);
}

proof fn lemma_trimmed(s: Seq<char>)
    ensures
        trimmed(s).len() > 0 ==> trimmed(s).last() != '\r',
        !s.contains('\n') ==> !trimmed(s).contains('\n'),
    decreases s.len(),
{
    if s.len() > 0 && white_space(s.first()) {
        lemma_trimmed(s.drop_first());
        if s.drop_first().contains('\n') {
            let k = choose|k: int| 0 <= k < s.len() - 1 && s.drop_first()[k] == '\n';
            assert(s[k + 1] == '\n');
        }
    } else if s.len() > 0 && white_space(s.last()) {
        lemma_trimmed(s.drop_last());
        if s.drop_last().contains('\n') {
            let k = choose|k: int| 0 <= k < s.len() - 1 && s.drop_last()[k] == '\n';
            assert(s[k] == '\n');
        }
    }
}

/// A line is written as it is, with a line feed behind it and nothing else.
pub proof fn law_entry_text(line: Seq<char>)
    ensures
        entry_text(line).len() == line.len() + 1,
        entry_text(line).take(line.len() as int) == line,
        entry_text(line).last() == '\n',
{
    assert(entry_text(line).take(line.len() as int) =~= line);
}

proof fn lemma_entries_apart(file: Seq<char>, rest: Seq<char>)
    requires
        file.len() == 0 || file.last() == '\n',
    ensures
        entries(file + rest) == entries(file) + entries(rest),
    decreases file.len(),
{
    let text = file + rest;
    text.index_of_first_ensures('\n');
    file.index_of_first_ensures('\n');
    if file.len() == 0 {
        assert(text =~= rest);
        assert(entries(file) =~= Seq::empty());
        assert(entries(file) + entries(rest) =~= entries(rest));
    } else {
        assert(file[file.len() - 1] == '\n');
        assert(file.contains('\n'));
        let d = file.index_of_first('\n')->0;
        assert(text[d] == '\n');
        assert(text.contains('\n'));
        let e = text.index_of_first('\n')->0;
        if e < d {
            assert(file[e] == text[e]);
        }
        assert(e == d);
        let left = file.skip(d + 1);
        assert(text.take(d) =~= file.take(d));
        assert(text.skip(d + 1) =~= left + rest);
        if left.len() > 0 {
            assert(left.last() == file.last());
        }
        lemma_entries_apart(left, rest);
        let first = kept(without_return(file.take(d)));
        assert(first + (entries(left) + entries(rest)) =~= (first + entries(left)) + entries(rest));
    }
}

/// What a line behind a history text adds to its entries. A line that a line feed ends adds itself,
/// without one carriage return at its end; the last line may go without a line feed and then adds
/// itself as it is. An empty line adds nothing.
pub proof fn law_line_by_line(file: Seq<char>, line: Seq<char>)
    requires
        file.len() == 0 || file.last() == '\n',
        !line.contains('\n'),
    ensures
        line.len() == 0 ==> entries(file + line) == entries(file),
        line.len() > 0 ==> entries(file + line) == entries(file).push(line),
        line.len() == 0 ==> entries(file + line.push('\n')) == entries(file),
        line.len() > 0 && line.last() != '\r' ==> entries(file + line.push('\n')) == entries(
            file,
        ).push(line),
        line.len() == 1 && line.last() == '\r' ==> entries(file + line.push('\n')) == entries(file),
        line.len() > 1 && line.last() == '\r' ==> entries(file + line.push('\n')) == entries(
            file,
        ).push(line.drop_last()),
{
    lemma_entries_apart(file, line);
    lemma_entries_apart(file, line.push('\n'));
    line.index_of_first_ensures('\n');
    assert(entries(line) == kept(line));
    let text = line.push('\n');
    text.index_of_first_ensures('\n');
    let n = line.len() as int;
    assert(text[n] == '\n');
    assert(text.contains('\n'));
    let d = text.index_of_first('\n')->0;
    if d < n {
        assert(line[d] == text[d]);
    }
    assert(d == n);
    assert(text.take(d) =~= line);
    let rest = text.skip(d + 1);
    assert(rest =~= Seq::empty());
    rest.index_of_first_ensures('\n');
    assert(entries(rest) =~= Seq::empty());
    assert(entries(text) =~= kept(without_return(line)));
    let e = entries(file);
    assert(e + Seq::empty() =~= e);
    assert(e + seq![line] =~= e.push(line));
    if line.len() > 0 {
        assert(e + seq![line.drop_last()] =~= e.push(line.drop_last()));
    }
}

} // verus!
