//! Completions for a filter that is being typed.

use crate::json::{names, Json, JsonView};
use crate::path::{resolve, resolve_path};
use crate::sort::{lemma_text_order, sort_texts, text_order};
use crate::text::{
    alphanumeric, begins_with, boundary, chars_of, lemma_ascii_byte, lemma_ends, lists_text, size,
    text_of, texts,
};
use std::borrow::Cow;
use vstd::prelude::*;
use vstd::relations::sorted_by;
use vstd::utf8::encode_utf8;

verus! {

/// The names of jq functions and constants that are offered as completions.
pub open spec fn builtins() -> Seq<Seq<char>> {
    seq![
        "empty"@,
        "length"@,
        "keys"@,
        "has"@,
        "map"@,
        "select"@,
        "del"@,
        "add"@,
        "sort"@,
        "reverse"@,
        "unique"@,
        "contains"@,
        "startswith"@,
        "endswith"@,
        "tonumber"@,
        "tostring"@,
        "type"@,
        "null"@,
        "true"@,
        "false"@,
    ]
}

/// Common jq builtins for completion.
pub fn jq_builtins() -> (r: &'static [&'static str])
    ensures
        r@.len() == builtins().len(),
        forall|i: int| 0 <= i < r@.len() ==> (#[trigger] r@[i])@ == builtins()[i],
{
    &[
        "empty",
        "length",
        "keys",
        "has",
        "map",
        "select",
        "del",
        "add",
        "sort",
        "reverse",
        "unique",
        "contains",
        "startswith",
        "endswith",
        "tonumber",
        "tostring",
        "type",
        "null",
        "true",
        "false",
    ]
}

/// The field names of a value, sorted.
pub open spec fn sorted_keys(v: JsonView) -> Seq<Seq<char>> {
    v.keys().sort_by(text_order())
}

/// Each text of a list with a dot before it.
pub open spec fn dotted(list: Seq<Seq<char>>) -> Seq<Seq<char>> {
    Seq::new(list.len(), |i: int| seq!['.'] + list[i])
}

/// `list` followed by those of `extra` that are not listed yet.
pub open spec fn with_missing(list: Seq<Seq<char>>, extra: Seq<Seq<char>>) -> Seq<Seq<char>>
    decreases extra.len(),
{
    if extra.len() == 0 {
        list
    } else {
        let most = with_missing(list, extra.drop_last());
        if most.contains(extra.last()) {
            most
        } else {
            most.push(extra.last())
        }
    }
}

/// A character that a plain path does not hold.
pub open spec fn breaks_path(c: char) -> bool {
    c == '(' || c == ')' || c == '|' || c == ' '
}

/// `prefix` is a plain path.
pub open spec fn plain(prefix: Seq<char>) -> bool {
    forall|i: int| 0 <= i < prefix.len() ==> !breaks_path(#[trigger] prefix[i])
}

/// The value whose fields complete what follows `prefix` and a dot.
pub open spec fn context(v: JsonView, prefix: Seq<char>) -> JsonView {
    if prefix.len() == 0 || !plain(prefix) {
        v
    } else {
        resolve(v, prefix)
    }
}

/// A character of a word.
pub open spec fn word_char(c: char) -> bool {
    alphanumeric(c) || c == '_'
}

/// `s` up to its last letter, numeral or underscore.
pub open spec fn word_part(s: Seq<char>) -> Seq<char>
    decreases s.len(),
{
    if s.len() > 0 && !word_char(s.last()) {
        word_part(s.drop_last())
    } else {
        s
    }
}

/// The texts that begin with `prefix`; if `longer`, not `prefix` itself.
pub open spec fn starting(prefix: Seq<char>, longer: bool) -> spec_fn(Seq<char>) -> bool {
    |k: Seq<char>| prefix.is_prefix_of(k) && (longer ==> k != prefix)
}

/// The text before the last dot of `input`; empty where there is no dot.
pub open spec fn before_dot(input: Seq<char>) -> Seq<char> {
    match input.index_of_last('.') {
        Some(d) => input.take(d),
        None => Seq::empty(),
    }
}

/// The text after the last dot of `input`; all of it where there is no dot.
pub open spec fn after_dot(input: Seq<char>) -> Seq<char> {
    match input.index_of_last('.') {
        Some(d) => input.skip(d + 1),
        None => input,
    }
}

/// What is offered before anything is typed.
pub open spec fn at_start(v: JsonView) -> Seq<Seq<char>> {
    let first = match v {
        JsonView::Object(_) => dotted(sorted_keys(v)),
        JsonView::Array(_) => seq![seq!['.', '[', ']']],
        _ => Seq::empty(),
    };
    with_missing(first, builtins())
}

/// What is offered after a single dot.
pub open spec fn at_dot(v: JsonView) -> Seq<Seq<char>> {
    match v {
        JsonView::Object(_) => sorted_keys(v),
        JsonView::Array(_) => seq![seq!['[', ']']],
        _ => Seq::empty(),
    }
}

/// What can follow the value that a path has reached.
pub open spec fn next_steps(v: JsonView) -> Seq<Seq<char>> {
    if v is Array {
        seq![seq!['[', ']']]
    } else {
        dotted(sorted_keys(v))
    }
}

/// What is offered for a name that is being typed: the longer names that begin with it; failing
/// that, what can follow the value it names.
pub open spec fn for_name(v: JsonView, input: Seq<char>) -> Seq<Seq<char>> {
    let prefix = before_dot(input);
    let partial = after_dot(input);
    let keys = context(v, prefix).keys();
    let longer = keys.filter(starting(partial, true));
    if longer.len() > 0 {
        longer
    } else if !plain(prefix) {
        if word_part(partial).len() == 0 {
            Seq::empty()
        } else {
            keys.filter(starting(word_part(partial), false))
        }
    } else if prefix.len() == 0 {
        next_steps(resolve(v, partial))
    } else {
        next_steps(resolve(v, input))
    }
}

/// The completions of `input` in a document.
pub open spec fn completions(v: JsonView, input: Seq<char>) -> Seq<Seq<char>> {
    if input.len() == 0 {
        at_start(v)
    } else if input == seq!['.'] {
        at_dot(v)
    } else if input.last() == '.' {
        sorted_keys(context(v, input.drop_last()))
    } else {
        for_name(v, input)
    }
}

/// The characters of each text of a list.
pub open spec fn strs(v: Seq<&str>) -> Seq<Seq<char>> {
    Seq::new(v.len(), |i: int| v[i]@)
}

/// The names of the fields of an object.
fn field_refs<'a>(o: &'a Vec<(String, Json)>) -> (r: Vec<&'a str>)
    ensures
        strs(r@) == names(Json::Object(*o)@->Object_0),
{
    let mut r: Vec<&'a str> = Vec::new();
    let mut i: usize = 0;
    while i < o.len()
        invariant
            i == r@.len() <= o@.len(),
            forall|k: int| 0 <= k < i ==> (#[trigger] r@[k])@ == o@[k].0@,
        decreases o@.len() - i,
    {
        r.push(o[i].0.as_str());
        i += 1;
    }
    assert(strs(r@) =~= names(Json::Object(*o)@->Object_0));
    r
}

/// The field names of an object, or of the object that an array begins with, in document order.
pub fn object_key_refs<'a>(value: &'a Json) -> (r: Vec<&'a str>)
    ensures
        strs(r@) == value@.keys(),
{
    match value {
        Json::Object(o) => field_refs(o),
        Json::Array(a) => {
            if a.len() > 0 {
                if let Json::Object(o) = &a[0] {
                    return field_refs(o);
                }
            }
            let r: Vec<&'a str> = Vec::new();
            assert(strs(r@) =~= value@.keys());
            r
        },
        _ => {
            let r: Vec<&'a str> = Vec::new();
            assert(strs(r@) =~= value@.keys());
            r
        },
    }
}

/// The field names of an object, or of the object that an array begins with, sorted.
pub fn object_keys(value: &Json) -> (r: Vec<String>)
    ensures
        texts(r@) == sorted_keys(value@),
{
    let refs = object_key_refs(value);
    let mut keys: Vec<String> = Vec::new();
    let mut i: usize = 0;
    while i < refs.len()
        invariant
            i == keys@.len() <= refs@.len(),
            forall|k: int| 0 <= k < i ==> (#[trigger] keys@[k])@ == refs@[k]@,
        decreases refs@.len() - i,
    {
        keys.push(refs[i].to_owned());
        i += 1;
    }
    assert(texts(keys@) =~= strs(refs@));
    sort_texts(keys)
}

/// The names offered for a value are its field names, each as often as it occurs, in order.
pub proof fn law_keys_are_sorted(v: JsonView)
    ensures
        sorted_keys(v).to_multiset() == v.keys().to_multiset(),
        sorted_by(sorted_keys(v), text_order()),
{
    lemma_text_order();
    v.keys().lemma_sort_by_ensures(text_order());
}

/// Before anything is typed every builtin is offered, and so is every field of an object.
pub proof fn law_start_offers_all(v: JsonView, name: Seq<char>)
    ensures
        builtins().contains(name) ==> completions(v, Seq::empty()).contains(name),
        v is Object && v.keys().contains(name) ==> completions(v, Seq::empty()).contains(
            seq!['.'] + name,
        ),
{
    let list = dotted(sorted_keys(v));
    if builtins().contains(name) {
        let first = match v {
            JsonView::Object(_) => list,
            JsonView::Array(_) => seq![seq!['.', '[', ']']],
            _ => Seq::empty(),
        };
        lemma_with_missing(first, builtins(), name);
    }
    if v is Object && v.keys().contains(name) {
        law_keys_are_sorted(v);
        v.keys().to_multiset_ensures();
        sorted_keys(v).to_multiset_ensures();
        assert(v.keys().to_multiset().contains(name));
        assert(sorted_keys(v).contains(name));
        let i = choose|i: int| 0 <= i < sorted_keys(v).len() && sorted_keys(v)[i] == name;
        assert(list[i] == seq!['.'] + name);
        lemma_with_missing(list, builtins(), seq!['.'] + name);
    }
}

proof fn lemma_with_missing(list: Seq<Seq<char>>, extra: Seq<Seq<char>>, item: Seq<char>)
    requires
        list.contains(item) || extra.contains(item),
    ensures
        with_missing(list, extra).contains(item),
    decreases extra.len(),
{
    if extra.len() > 0 {
        let most = with_missing(list, extra.drop_last());
        if list.contains(item) || extra.drop_last().contains(item) {
            lemma_with_missing(list, extra.drop_last(), item);
            let i = choose|i: int| 0 <= i < most.len() && most[i] == item;
            assert(with_missing(list, extra)[i] == item);
        } else {
            let i = choose|i: int| 0 <= i < extra.len() && extra[i] == item;
            if i < extra.len() - 1 {
                assert(extra.drop_last()[i] == item);
            }
            if !most.contains(item) {
                assert(with_missing(list, extra).last() == item);
            }
        }
    }
}

/// The byte of `.`.
pub const DOT: u8 = 0x2e;

/// The byte of `(`.
pub const OPEN: u8 = 0x28;

/// The byte of `|`.
pub const PIPE: u8 = 0x7c;

/// The byte of a space.
pub const SPACE: u8 = 0x20;

/// A byte after which a word begins.
pub open spec fn ends_word(b: u8) -> bool {
    b == DOT || b == OPEN || b == PIPE || b == SPACE
}

/// Where the word that ends at byte offset `cursor` begins: behind the last `.`, `(`, `|` or space
/// before the cursor.
pub open spec fn word_start(bytes: Seq<u8>, cursor: int) -> int
    decreases cursor,
{
    if cursor <= 0 {
        0
    } else if ends_word(bytes[cursor - 1]) {
        cursor
    } else {
        word_start(bytes, cursor - 1)
    }
}

/// The smaller of two numbers.
pub open spec fn smaller(a: int, b: int) -> int {
    if a <= b {
        a
    } else {
        b
    }
}

/// A word begins at a character boundary at or before the cursor, and nothing that ends a word
/// stands in it.
pub proof fn law_word_start(s: Seq<char>, cursor: int)
    requires
        0 <= cursor <= size(s),
    ensures
        0 <= word_start(encode_utf8(s), cursor) <= cursor,
        boundary(s, word_start(encode_utf8(s), cursor)),
        forall|k: int|
            word_start(encode_utf8(s), cursor) <= k < cursor ==> !ends_word(
                #[trigger] encode_utf8(s)[k],
            ),
    decreases cursor,
{
    if cursor == 0 {
        lemma_ends(s);
    } else if ends_word(encode_utf8(s)[cursor - 1]) {
        lemma_ascii_byte(s, cursor - 1);
    } else {
        law_word_start(s, cursor - 1);
    }
}

/// The byte offset at which the word under the cursor begins.
pub fn word_start_at(input: &str, cursor: usize) -> (r: usize)
    requires
        boundary(input@, smaller(cursor as int, size(input@) as int)),
    ensures
        r == word_start(encode_utf8(input@), smaller(cursor as int, size(input@) as int)),
{
    let bytes = input.as_bytes();
    let mut at: usize = if cursor <= bytes.len() {
        cursor
    } else {
        bytes.len()
    };
    let ghost end = at as int;
    while at > 0 && !(bytes[at - 1] == DOT || bytes[at - 1] == OPEN || bytes[at - 1] == PIPE
        || bytes[at - 1] == SPACE)
        invariant
            at <= bytes@.len(),
            bytes@ == encode_utf8(input@),
            word_start(bytes@, end) == word_start(bytes@, at as int),
        ensures
            at == 0 || ends_word(bytes@[at - 1]),
        decreases at,
    {
        at -= 1;
    }
    at
}

/// The field names of `value` that begin with `prefix`; if `longer`, not `prefix` itself.
fn keys_starting(value: &Json, prefix: &Vec<char>, longer: bool) -> (r: Vec<String>)
    ensures
        texts(r@) == value@.keys().filter(starting(prefix@, longer)),
{
    let refs = object_key_refs(value);
    let ghost keys = value@.keys();
    let ghost wanted = starting(prefix@, longer);
    let mut r: Vec<String> = Vec::new();
    let mut i: usize = 0;
    proof {
        reveal(Seq::filter);
        assert(texts(r@) =~= keys.take(0).filter(wanted));
    }
    while i < refs.len()
        invariant
            keys == strs(refs@),
            wanted == starting(prefix@, longer),
            i <= refs@.len(),
            texts(r@) == keys.take(i as int).filter(wanted),
        decreases refs@.len() - i,
    {
        let key = refs[i];
        let ghost kept = r@;
        let fits = begins_with(key, prefix);
        let takes = fits && !(longer && chars_of(key).len() == prefix.len());
        proof {
            reveal(Seq::filter);
            assert(keys.take(i + 1).drop_last() =~= keys.take(i as int));
            assert(keys.take(i + 1).last() == key@);
            if fits && key@.len() == prefix@.len() {
                assert(key@ =~= prefix@);
            }
            assert(takes == wanted(key@));
        }
        if takes {
            r.push(key.to_owned());
            assert(texts(r@) =~= texts(kept).push(key@));
        }
        i += 1;
    }
    assert(keys.take(refs@.len() as int) =~= keys);
    r
}

/// Puts a dot before each text.
fn with_dots(list: &Vec<String>) -> (r: Vec<String>)
    ensures
        texts(r@) == dotted(texts(list@)),
{
    let mut r: Vec<String> = Vec::new();
    let mut i: usize = 0;
    while i < list.len()
        invariant
            i == r@.len() <= list@.len(),
            forall|k: int| 0 <= k < i ==> (#[trigger] r@[k])@ == seq!['.'] + list@[k]@,
        decreases list@.len() - i,
    {
        let mut item = String::new();
        item.push('.');
        item.append(list[i].as_str());
        assert(item@ =~= seq!['.'] + list@[i as int]@);
        r.push(item);
        i += 1;
    }
    assert(texts(r@) =~= dotted(texts(list@)));
    r
}

/// Lists the builtins that `list` does not hold yet.
fn push_builtins(list: Vec<String>) -> (r: Vec<String>)
    ensures
        texts(r@) == with_missing(texts(list@), builtins()),
{
    let all = jq_builtins();
    let mut r = list;
    let ghost first = texts(list@);
    let mut i: usize = 0;
    assert(builtins().take(0) =~= Seq::empty());
    while i < all.len()
        invariant
            all@.len() == builtins().len(),
            forall|k: int| 0 <= k < all@.len() ==> (#[trigger] all@[k])@ == builtins()[k],
            i <= all@.len(),
            texts(r@) == with_missing(first, builtins().take(i as int)),
        decreases all@.len() - i,
    {
        let ghost listed = r@;
        proof {
            assert(builtins().take(i + 1).drop_last() =~= builtins().take(i as int));
            assert(builtins().take(i + 1).last() == all@[i as int]@);
        }
        if !lists_text(&r, all[i]) {
            r.push(all[i].to_owned());
            assert(texts(r@) =~= texts(listed).push(all@[i as int]@));
        }
        i += 1;
    }
    assert(builtins().take(all@.len() as int) =~= builtins());
    r
}

/// Whether the first `end` characters make a plain path.
fn is_plain(chars: &Vec<char>, end: usize) -> (r: bool)
    requires
        end <= chars@.len(),
    ensures
        r == plain(chars@.take(end as int)),
{
    let mut i: usize = 0;
    while i < end
        invariant
            i <= end <= chars@.len(),
            forall|k: int| 0 <= k < i ==> !breaks_path(#[trigger] chars@[k]),
        decreases end - i,
    {
        let c = chars[i];
        if c == '(' || c == ')' || c == '|' || c == ' ' {
            assert(breaks_path(chars@.take(end as int)[i as int]));
            return false;
        }
        i += 1;
    }
    true
}

/// A list of one text.
fn only(item: &str) -> (r: Vec<String>)
    ensures
        texts(r@) == seq![item@],
{
    let mut r: Vec<String> = Vec::new();
    r.push(item.to_owned());
    assert(texts(r@) =~= seq![item@]);
    r
}

/// An empty list.
fn nothing() -> (r: Vec<String>)
    ensures
        texts(r@) == Seq::<Seq<char>>::empty(),
{
    let r: Vec<String> = Vec::new();
    assert(texts(r@) =~= Seq::empty());
    r
}

/// The value behind a path.
fn target<'b>(found: &'b Cow<'_, Json>) -> (r: &'b Json)
    ensures
        r@ == found@,
{
    match found {
        Cow::Borrowed(j) => j,
        Cow::Owned(j) => j,
    }
}

/// What can follow the value that `path` leads to.
fn steps_from(value: &Json, path: &str) -> (r: Vec<String>)
    ensures
        texts(r@) == next_steps(resolve(value@, path@)),
{
    let found = resolve_path(value, path);
    let reached = target(&found);
    match reached {
        Json::Array(_) => {
            proof {
                reveal_strlit("[]");
                assert("[]"@ =~= seq!['[', ']']);
            }
            only("[]")
        },
        _ => with_dots(&object_keys(reached)),
    }
}

/// The completions of `input` in a document.
pub fn get_completions(value: &Json, input: &str) -> (r: Vec<String>)
    ensures
        texts(r@) == completions(value@, input@),
{
    let chars = chars_of(input);
    let n = chars.len();
    proof {
        reveal_strlit("[]");
        reveal_strlit(".[]");
        assert("[]"@ =~= seq!['[', ']']);
        assert(".[]"@ =~= seq!['.', '[', ']']);
    }
    if n == 0 {
        let first = match value {
            Json::Object(_) => with_dots(&object_keys(value)),
            Json::Array(_) => only(".[]"),
            _ => nothing(),
        };
        return push_builtins(first);
    }
    if n == 1 && chars[0] == '.' {
        assert(input@ =~= seq!['.']);
        return match value {
            Json::Object(_) => object_keys(value),
            Json::Array(_) => only("[]"),
            _ => nothing(),
        };
    }
    if chars[n - 1] == '.' {
        assert(chars@.take(n - 1) =~= input@.drop_last());
        if !is_plain(&chars, n - 1) {
            return object_keys(value);
        }
        let prefix = text_of(&chars, 0, n - 1);
        let found = resolve_path(value, prefix.as_str());
        return object_keys(target(&found));
    }
    // The name being typed begins at `word`; the dot before it, if any, ends the prefix.
    let mut word: usize = n;
    while word > 0 && chars[word - 1] != '.'
        invariant
            word <= n == chars@.len(),
            forall|k: int| word <= k < n ==> chars@[k] != '.',
        ensures
            word == 0 || chars@[word - 1] == '.',
        decreases word,
    {
        word -= 1;
    }
    let end: usize = if word == 0 {
        0
    } else {
        word - 1
    };
    proof {
        input@.index_of_last_ensures('.');
        if word > 0 {
            assert(input@.contains('.'));
            assert(input@.index_of_last('.') == Some(end as int));
        } else if input@.contains('.') {
            assert(false);
        }
        assert(before_dot(input@) =~= chars@.take(end as int));
        assert(after_dot(input@) =~= chars@.subrange(word as int, n as int));
    }
    let partial = text_of(&chars, word, n);
    let wanted = chars_of(partial.as_str());
    let is_path = is_plain(&chars, end);
    let prefix = text_of(&chars, 0, end);
    assert(prefix@ =~= chars@.take(end as int));
    let found: Cow<Json> = if end == 0 || !is_path {
        Cow::Borrowed(value)
    } else {
        resolve_path(value, prefix.as_str())
    };
    let ctx = target(&found);
    let longer = keys_starting(ctx, &wanted, true);
    if longer.len() > 0 {
        return longer;
    }
    assert(texts(longer@) =~= Seq::empty());
    if !is_path {
        let mut len: usize = wanted.len();
        assert(wanted@.take(len as int) =~= wanted@);
        while len > 0 && !(wanted[len - 1].is_alphanumeric() || wanted[len - 1] == '_')
            invariant
                len <= wanted@.len(),
                word_part(wanted@.take(len as int)) == word_part(wanted@),
            ensures
                len == 0 || word_char(wanted@[len - 1]),
            decreases len,
        {
            assert(wanted@.take(len as int).drop_last() =~= wanted@.take(len - 1));
            len -= 1;
        }
        assert(word_part(wanted@) =~= wanted@.take(len as int));
        if len == 0 {
            return nothing();
        }
        let cleaned = chars_of(text_of(&wanted, 0, len).as_str());
        assert(cleaned@ =~= word_part(wanted@));
        return keys_starting(ctx, &cleaned, false);
    }
    if end == 0 {
        steps_from(value, partial.as_str())
    } else {
        steps_from(value, input)
    }
}

} // verus!
