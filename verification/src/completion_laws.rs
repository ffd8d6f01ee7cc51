//! What holds of completions.

use crate::app::{local_part, offers, open_parens};
use crate::complete::{
    after_dot, before_dot, breaks_path, builtins, completions, dotted, for_name, plain,
    sorted_keys, starting, with_missing, word_part,
};
use crate::json::{names, JsonView};
use crate::path::{
    brackets_at, descend, enter, law_walk_composes, named, reached, resolve, step, walk,
};
use crate::sort::{bytes_le, lemma_text_order, text_order};
use crate::text::alphanumeric;
use vstd::prelude::*;
use vstd::utf8::encode_utf8;

verus! {

/// A piece of a path: a name, which may be empty, how often `[]` follows it, and what stands behind
/// that and is not read.
pub struct Segment {
    pub name: Seq<char>,
    pub times: nat,
    pub rest: Seq<char>,
}

impl Segment {
    /// The piece as it is written.
    pub open spec fn text(self) -> Seq<char> {
        self.name + brackets(self.times) + self.rest
    }

    /// The name holds no `[]`, nothing of the piece holds a dot, and what is not read stands behind
    /// a `[]` and does not begin with one.
    pub open spec fn holds(self) -> bool {
        &&& !self.name.contains('.') && !self.rest.contains('.')
        &&& forall|k: int|
            0 <= k < self.name.len() - 1 && #[trigger] self.name[k] == '[' ==> self.name[k + 1] != ']'
        &&& self.rest.len() > 0 ==> self.times > 0
        &&& self.rest.len() > 1 && self.rest[0] == '[' ==> self.rest[1] != ']'
    }
}

/// `[]`, a number of times.
pub open spec fn brackets(times: nat) -> Seq<char>
    decreases times,
{
    if times == 0 {
        Seq::empty()
    } else {
        seq!['[', ']'] + brackets((times - 1) as nat)
    }
}

/// A path as it is written: its pieces with a dot between each two.
pub open spec fn path_text(path: Seq<Segment>) -> Seq<char>
    decreases path.len(),
{
    if path.len() == 0 {
        Seq::empty()
    } else if path.len() == 1 {
        path[0].text()
    } else {
        path[0].text() + seq!['.'] + path_text(path.drop_first())
    }
}

/// Every piece of a path is one.
pub open spec fn pieces_hold(path: Seq<Segment>) -> bool {
    forall|i: int| 0 <= i < path.len() ==> (#[trigger] path[i]).holds()
}

/// The pieces of a path hold none of `(`, `)`, `|` and the space.
pub open spec fn pieces_plain(path: Seq<Segment>) -> bool {
    forall|i: int|
        0 <= i < path.len() ==> is_path((#[trigger] path[i]).name) && is_path(path[i].rest)
}

/// The first field of that name holds `w`.
pub open spec fn holds_field(
    o: Seq<(Seq<char>, JsonView)>,
    name: Seq<char>,
    w: JsonView,
) -> bool {
    exists|i: int|
        0 <= i < o.len() && (#[trigger] o[i]).0 == name && o[i].1 == w && forall|j: int|
            0 <= j < i ==> (#[trigger] o[j]).0 != name
}

/// A name leads from `v` to `w`. An empty name stays. Where `through` says so, a field is looked up
/// in the first element of an array.
pub open spec fn name_leads(through: bool, v: JsonView, name: Seq<char>, w: JsonView) -> bool {
    if name.len() == 0 {
        w == v
    } else {
        match v {
            JsonView::Object(o) => holds_field(o, name, w),
            JsonView::Array(a) => through && a.len() > 0 && match a[0] {
                JsonView::Object(o) => holds_field(o, name, w),
                _ => false,
            },
            _ => false,
        }
    }
}

/// `w` is reached from `v` by going into the first element a number of times.
pub open spec fn goes_down(v: JsonView, times: nat, w: JsonView) -> bool
    decreases times,
{
    if times == 0 {
        w == v
    } else {
        match v {
            JsonView::Array(a) => a.len() > 0 && goes_down(a[0], (times - 1) as nat, w),
            _ => false,
        }
    }
}

/// A path leads from `v` to `w`.
pub open spec fn leads(through: bool, v: JsonView, path: Seq<Segment>, w: JsonView) -> bool
    decreases path.len(),
{
    if path.len() == 0 {
        w == v
    } else {
        exists|x: JsonView, y: JsonView| #[trigger]
            name_leads(through, v, path[0].name, x) && #[trigger] goes_down(x, path[0].times, y)
                && leads(through, y, path.drop_first(), w)
    }
}

/// A path leads from a document to `w`. From an array, fields are looked up in the first element of
/// arrays.
pub open spec fn leads_to(v: JsonView, path: Seq<Segment>, w: JsonView) -> bool {
    leads(v is Array, v, path, w)
}

proof fn lemma_name_leads(through: bool, v: JsonView, name: Seq<char>, w: JsonView)
    ensures
        name_leads(through, v, name, w) <==> named(through, v, name) == Some(w),
{
    if name.len() > 0 {
        let inner = enter(through, v);
        if let Some(JsonView::Object(o)) = inner {
            names(o).index_of_first_ensures(name);
            assert(forall|i: int| 0 <= i < o.len() ==> names(o)[i] == (#[trigger] o[i]).0);
            if holds_field(o, name, w) {
                let i = choose|i: int|
                    0 <= i < o.len() && (#[trigger] o[i]).0 == name && o[i].1 == w && forall|j: int|
                        0 <= j < i ==> (#[trigger] o[j]).0 != name;
                assert(names(o)[i] == name);
                assert(names(o).contains(name));
                let d = names(o).index_of_first(name)->0;
                assert(o[d].0 == name);
            }
            if names(o).contains(name) {
                let d = names(o).index_of_first(name)->0;
                assert(o[d].0 == name);
                assert forall|j: int| 0 <= j < d implies (#[trigger] o[j]).0 != name by {
                    assert(names(o)[j] != name);
                }
            }
        }
    }
}

proof fn lemma_goes_down(v: JsonView, times: nat, rest: Seq<char>, w: JsonView)
    requires
        rest.len() > 1 && rest[0] == '[' ==> rest[1] != ']',
    ensures
        goes_down(v, times, w) <==> descend(v, brackets(times) + rest) == Some(w),
    decreases times,
{
    let all = brackets(times) + rest;
    if times > 0 {
        let left = brackets((times - 1) as nat) + rest;
        assert(all[0] == '[' && all[1] == ']');
        assert(all.skip(2) =~= left);
        if let Some(x) = v.first() {
            lemma_goes_down(x, (times - 1) as nat, rest, w);
        }
    } else {
        assert(all =~= rest);
    }
}

proof fn lemma_brackets_behind(name: Seq<char>, times: nat, rest: Seq<char>)
    requires
        forall|k: int| 0 <= k < name.len() - 1 && #[trigger] name[k] == '[' ==> name[k + 1] != ']',
        rest.len() > 0 ==> times > 0,
    ensures
        brackets_at(name + brackets(times) + rest) == name.len(),
    decreases name.len(),
{
    let seg = name + brackets(times) + rest;
    if times > 0 {
        assert(brackets(times)[0] == '[' && brackets(times)[1] == ']');
    }
    if name.len() == 0 {
        assert(seg =~= brackets(times) + rest);
    } else {
        let left = name.drop_first();
        assert forall|k: int| 0 <= k < left.len() - 1 && #[trigger] left[k] == '[' implies left[k + 1]
            != ']' by {
            assert(left[k] == name[k + 1]);
        }
        lemma_brackets_behind(left, times, rest);
        assert(seg[0] == name[0]);
        assert(seg.drop_first() =~= left + brackets(times) + rest);
        if seg.len() >= 2 {
            if name.len() >= 2 {
                assert(seg[1] == name[1]);
                assert(name[0] == '[' ==> name[1] != ']');
            } else {
                assert(seg[1] == brackets(times)[0]);
            }
        }
    }
}

proof fn lemma_brackets_chars(times: nat)
    ensures
        forall|k: int|
            0 <= k < brackets(times).len() ==> #[trigger] brackets(times)[k] == '['
                || brackets(times)[k] == ']',
    decreases times,
{
    if times > 0 {
        lemma_brackets_chars((times - 1) as nat);
        let rest = brackets((times - 1) as nat);
        assert forall|k: int| 0 <= k < brackets(times).len() implies #[trigger] brackets(times)[k]
            == '[' || brackets(times)[k] == ']' by {
            if k >= 2 {
                assert(brackets(times)[k] == rest[k - 2]);
            }
        }
    }
}

/// A path leads exactly where its pieces lead: a name to the first field of that name, `[]` to the
/// first element. From an array, fields are looked up in the first element of arrays.
pub proof fn law_path_leads(v: JsonView, path: Seq<Segment>, w: JsonView)
    requires
        path.len() > 0,
        pieces_hold(path),
    ensures
        reached(v, path_text(path)) == Some(w) <==> leads_to(v, path, w),
        leads_to(v, path, w) ==> resolve(v, path_text(path)) == w,
        (forall|x: JsonView| !#[trigger] leads_to(v, path, x)) ==> resolve(v, path_text(path))
            == JsonView::Null,
{
    lemma_path_leads(v is Array, v, path, w);
    if let Some(x) = reached(v, path_text(path)) {
        lemma_path_leads(v is Array, v, path, x);
        assert(leads_to(v, path, x));
    }
}

proof fn lemma_path_leads(through: bool, v: JsonView, path: Seq<Segment>, w: JsonView)
    requires
        path.len() > 0,
        pieces_hold(path),
    ensures
        walk(through, v, path_text(path)) == Some(w) <==> leads(through, v, path, w),
    decreases path.len(),
{
    let name = path[0].name;
    let times = path[0].times;
    let junk = path[0].rest;
    let first = path[0].text();
    let rest = path.drop_first();
    assert(path[0].holds());
    // The first piece holds no dot.
    lemma_brackets_chars(times);
    first.index_of_first_ensures('.');
    if first.contains('.') {
        let d = first.index_of_first('.')->0;
        let n = name.len() as int;
        let m = brackets(times).len() as int;
        if d < n {
            assert(name[d] == '.');
        } else if d < n + m {
            assert(first[d] == brackets(times)[d - n]);
        } else {
            assert(junk[d - n - m] == '.');
        }
    }
    assert(walk(through, v, first) == step(through, v, first));
    lemma_brackets_behind(name, times, junk);
    assert(first.take(name.len() as int) =~= name);
    assert(first.skip(name.len() as int) =~= brackets(times) + junk);
    let x = named(through, v, name);
    assert(step(through, v, first) == match x {
        Some(x) => descend(x, brackets(times) + junk),
        None => None,
    });
    if x is Some {
        lemma_name_leads(through, v, name, x->0);
    }
    assert forall|u: JsonView| #[trigger] name_leads(through, v, name, u) implies x == Some(u) by {
        lemma_name_leads(through, v, name, u);
    }
    let y = step(through, v, first);
    if y is Some {
        lemma_goes_down(x->0, times, junk, y->0);
    }
    if x is Some {
        assert forall|u: JsonView| #[trigger] goes_down(x->0, times, u) implies y == Some(u) by {
            lemma_goes_down(x->0, times, junk, u);
        }
    }
    if path.len() == 1 {
        reveal_with_fuel(leads, 2);
        assert(rest.len() == 0);
        assert(path_text(path) == first);
        if y is Some {
            assert(name_leads(through, v, name, x->0) && goes_down(x->0, times, y->0));
            assert(leads(through, y->0, rest, y->0));
        }
    } else {
        assert forall|i: int| 0 <= i < rest.len() implies (#[trigger] rest[i]).holds() by {
            assert(path[i + 1].holds());
        }
        law_walk_composes(through, v, first, path_text(rest));
        assert(path_text(path) =~= first.push('.') + path_text(rest));
        if y is Some {
            lemma_path_leads(through, y->0, rest, w);
            assert(name_leads(through, v, name, x->0) && goes_down(x->0, times, y->0));
        }
    }
}

/// The names of the fields of an object, or of the object that an array begins with.
pub open spec fn field_names(v: JsonView) -> Seq<Seq<char>> {
    match v {
        JsonView::Object(o) => Seq::new(o.len(), |i: int| o[i].0),
        JsonView::Array(a) => if a.len() > 0 {
            match a[0] {
                JsonView::Object(o) => Seq::new(o.len(), |i: int| o[i].0),
                _ => Seq::empty(),
            }
        } else {
            Seq::empty()
        },
        _ => Seq::empty(),
    }
}

/// `a` does not come behind `b`: it begins `b`, or at the first byte in which they differ it has the
/// smaller one.
pub open spec fn in_order(a: Seq<char>, b: Seq<char>) -> bool {
    let x = encode_utf8(a);
    let y = encode_utf8(b);
    exists|k: int|
        0 <= k <= x.len() && k <= y.len() && #[trigger] x.take(k) == y.take(k) && (k == x.len() || (k
            < y.len() && x[k] < y[k]))
}

/// `list` is `items`, each as often as there, in order.
pub open spec fn sorts(list: Seq<Seq<char>>, items: Seq<Seq<char>>) -> bool {
    &&& list.to_multiset() == items.to_multiset()
    &&& forall|i: int, j: int|
        0 <= i < j < list.len() ==> #[trigger] in_order(list[i], list[j])
}

/// `list` is `items` in order, each with a dot before it.
pub open spec fn sorts_dotted(list: Seq<Seq<char>>, items: Seq<Seq<char>>) -> bool {
    &&& forall|i: int| 0 <= i < list.len() ==> (#[trigger] list[i]).len() > 0 && list[i][0] == '.'
    &&& sorts(Seq::new(list.len(), |i: int| list[i].drop_first()), items)
}

proof fn lemma_in_order(x: Seq<u8>, y: Seq<u8>) -> (k: int)
    requires
        bytes_le(x, y),
    ensures
        0 <= k <= x.len(),
        k <= y.len(),
        x.take(k) == y.take(k),
        k == x.len() || (k < y.len() && x[k] < y[k]),
    decreases x.len(),
{
    if x.len() == 0 || x[0] < y[0] {
        assert(x.take(0) =~= y.take(0));
        0
    } else {
        let k = lemma_in_order(x.drop_first(), y.drop_first());
        assert(x.take(k + 1) =~= seq![x[0]] + x.drop_first().take(k));
        assert(y.take(k + 1) =~= seq![y[0]] + y.drop_first().take(k));
        k + 1
    }
}

proof fn lemma_sorts(v: JsonView)
    ensures
        v.keys() == field_names(v),
        sorts(sorted_keys(v), field_names(v)),
        sorts_dotted(dotted(sorted_keys(v)), field_names(v)),
{
    let list = sorted_keys(v);
    assert(v.keys() =~= field_names(v));
    lemma_text_order();
    v.keys().lemma_sort_by_ensures(text_order());
    assert forall|i: int, j: int| 0 <= i < j < list.len() implies #[trigger] in_order(
        list[i],
        list[j],
    ) by {
        assert(text_order()(list[i], list[j]));
        let k = lemma_in_order(encode_utf8(list[i]), encode_utf8(list[j]));
        assert(encode_utf8(list[i]).take(k) == encode_utf8(list[j]).take(k));
    }
    let d = dotted(list);
    assert forall|i: int| 0 <= i < d.len() implies (#[trigger] d[i]).len() > 0 && d[i][0] == '.' && d[
        i].drop_first() =~= list[i] by {}
    assert(Seq::new(d.len(), |i: int| d[i].drop_first()) =~= list);
}

/// `p` holds none of `(`, `)`, `|` and the space, so that it is taken as a path.
pub open spec fn is_path(p: Seq<char>) -> bool {
    !p.contains('(') && !p.contains(')') && !p.contains('|') && !p.contains(' ')
}

proof fn lemma_is_path(p: Seq<char>)
    ensures
        plain(p) <==> is_path(p),
{
    if plain(p) {
        assert forall|c: char| c == '(' || c == ')' || c == '|' || c == ' ' implies !#[trigger] p.contains(
            c,
        ) by {
            if p.contains(c) {
                let i = choose|i: int| 0 <= i < p.len() && p[i] == c;
                assert(!breaks_path(p[i]));
            }
        }
    } else {
        let i = choose|i: int| 0 <= i < p.len() && breaks_path(#[trigger] p[i]);
        assert(p.contains(p[i]));
    }
}

/// The value whose fields follow `p` and a dot: what the path `p` leads to, or the document itself
/// where `p` is empty or no path.
pub open spec fn value_before_dot(v: JsonView, p: Seq<char>) -> JsonView {
    if p.len() > 0 && is_path(p) {
        resolve(v, p)
    } else {
        v
    }
}

/// Behind a text and a dot the sorted names of the fields of the value there are offered.
pub proof fn law_fields_behind_a_dot(v: JsonView, p: Seq<char>)
    requires
        p.len() > 0,
    ensures
        sorts(completions(v, p.push('.')), field_names(value_before_dot(v, p))),
{
    let input = p.push('.');
    assert(input.drop_last() =~= p);
    assert(input != seq!['.']) by {
        assert(seq!['.'].len() == 1);
    }
    lemma_is_path(p);
    lemma_sorts(value_before_dot(v, p));
}

/// For a path that leads from the document to a value, what is offered for the path and a dot is
/// the sorted list of the names of the fields of that value.
pub proof fn law_path_is_completed(v: JsonView, path: Seq<Segment>, w: JsonView)
    requires
        path_text(path).len() > 0,
        pieces_hold(path),
        pieces_plain(path),
        leads_to(v, path, w),
    ensures
        sorts(completions(v, path_text(path).push('.')), field_names(w)),
{
    law_path_leads(v, path, w);
    lemma_path_plain(path);
    law_fields_behind_a_dot(v, path_text(path));
}

proof fn lemma_path_plain(path: Seq<Segment>)
    requires
        pieces_plain(path),
    ensures
        is_path(path_text(path)),
    decreases path.len(),
{
    let p = path_text(path);
    if path.len() > 0 {
        let name = path[0].name;
        let junk = path[0].rest;
        let first = path[0].text();
        assert(is_path(name) && is_path(junk));
        lemma_brackets_chars(path[0].times);
        let n = name.len() as int;
        let m = brackets(path[0].times).len() as int;
        assert forall|k: int| 0 <= k < first.len() implies !broken(#[trigger] first[k]) by {
            if k < n {
                assert(name.contains(first[k]));
            } else if k < n + m {
                assert(first[k] == brackets(path[0].times)[k - n]);
            } else {
                assert(first[k] == junk[k - n - m]);
                assert(junk.contains(first[k]));
            }
        }
        if path.len() > 1 {
            let rest = path.drop_first();
            assert forall|i: int| 0 <= i < rest.len() implies is_path((#[trigger] rest[i]).name)
                && is_path(rest[i].rest) by {
                assert(is_path(path[i + 1].name));
            }
            lemma_path_plain(rest);
            let t = path_text(rest);
            assert forall|k: int| 0 <= k < p.len() implies !broken(#[trigger] p[k]) by {
                if k < first.len() {
                    assert(p[k] == first[k]);
                } else if k > first.len() {
                    assert(p[k] == t[k - first.len() - 1]);
                    assert(t.contains(p[k]));
                }
            }
        } else {
            assert(p =~= first);
        }
    }
}

/// `c` is one of `(`, `)`, `|` and the space.
pub open spec fn broken(c: char) -> bool {
    c == '(' || c == ')' || c == '|' || c == ' '
}

/// The field names of a value, sorted: those of an object, or of the object that an array begins
/// with.
pub proof fn law_sorted_fields(v: JsonView)
    ensures
        v.keys() == field_names(v),
        sorts(sorted_keys(v), field_names(v)),
{
    lemma_sorts(v);
}

/// Behind a single dot an object offers the sorted names of its fields, an array `[]`, and any other
/// value nothing.
pub proof fn law_single_dot(v: JsonView)
    ensures
        v is Object ==> sorts(completions(v, seq!['.']), field_names(v)),
        v is Array ==> completions(v, seq!['.']) == seq![seq!['[', ']']],
        !(v is Object) && !(v is Array) ==> completions(v, seq!['.']).len() == 0,
{
    lemma_sorts(v);
}

/// Texts that begin with `part`.
pub open spec fn begins(part: Seq<char>) -> spec_fn(Seq<char>) -> bool {
    |k: Seq<char>| part.len() <= k.len() && k.take(part.len() as int) == part
}

/// Texts that begin with `part` and are longer.
pub open spec fn goes_on(part: Seq<char>) -> spec_fn(Seq<char>) -> bool {
    |k: Seq<char>| part.len() < k.len() && k.take(part.len() as int) == part
}

/// The fields of `v` that begin with `part`, in the order of the document.
pub open spec fn beginning_with(v: JsonView, part: Seq<char>) -> Seq<Seq<char>> {
    field_names(v).filter(begins(part))
}

/// The fields of `v` that begin with `part` and are longer, in the order of the document.
pub open spec fn going_on_from(v: JsonView, part: Seq<char>) -> Seq<Seq<char>> {
    field_names(v).filter(goes_on(part))
}

proof fn lemma_filters(v: JsonView, part: Seq<char>)
    ensures
        v.keys().filter(starting(part, true)) == going_on_from(v, part),
        v.keys().filter(starting(part, false)) == beginning_with(v, part),
{
    lemma_sorts(v);
    let f = starting(part, true);
    let g = goes_on(part);
    assert forall|k: Seq<char>| #[trigger] f(k) == g(k) by {
        if part.is_prefix_of(k) {
            assert(k.take(part.len() as int) =~= part);
            if k.len() == part.len() {
                assert(k =~= part);
            }
        }
        if g(k) {
            assert(part =~= k.subrange(0, part.len() as int));
        }
    }
    assert(f =~= g);
    let f = starting(part, false);
    let g = begins(part);
    assert forall|k: Seq<char>| #[trigger] f(k) == g(k) by {
        if part.is_prefix_of(k) {
            assert(k.take(part.len() as int) =~= part);
        }
        if g(k) {
            assert(part =~= k.subrange(0, part.len() as int));
        }
    }
    assert(f =~= g);
}

/// What follows a value that a path has reached: `[]` behind an array, else a dot and a field.
pub open spec fn follows(list: Seq<Seq<char>>, v: JsonView) -> bool {
    if v is Array {
        list == seq![seq!['[', ']']]
    } else {
        sorts_dotted(list, field_names(v))
    }
}

/// For a name that is being typed behind a text and a dot, the longer names that begin with it are
/// offered, in the order of the document. Where there are none, a path offers what follows the
/// value it leads to, and a text that is no path the fields that begin with the word that is left
/// of the name when what stands behind its last letter, numeral or underscore is cut off.
pub proof fn law_name_behind_a_dot(
    v: JsonView,
    p: Seq<char>,
    word: Seq<char>,
    junk: Seq<char>,
)
    requires
        word.len() + junk.len() > 0,
        !(word + junk).contains('.'),
        word.len() > 0 ==> alphanumeric(word.last()) || word.last() == '_',
        forall|i: int|
            0 <= i < junk.len() ==> !alphanumeric(#[trigger] junk[i]) && junk[i] != '_',
    ensures
        ({
            let part = word + junk;
            let input = p + seq!['.'] + part;
            let list = completions(v, input);
            let longer = going_on_from(value_before_dot(v, p), part);
            if longer.len() > 0 {
                list == longer
            } else if !is_path(p) {
                if word.len() == 0 {
                    list.len() == 0
                } else {
                    list == beginning_with(v, word)
                }
            } else if p.len() == 0 {
                follows(list, resolve(v, part))
            } else {
                follows(list, resolve(v, input))
            }
        }),
{
    let part = word + junk;
    let input = p + seq!['.'] + part;
    let n = p.len() as int;
    input.index_of_last_ensures('.');
    assert(input[n] == '.');
    assert(input.contains('.'));
    let d = input.index_of_last('.')->0;
    if d > n {
        assert(part[d - n - 1] == input[d]);
        assert(part.contains('.'));
    }
    assert(d == n);
    assert(before_dot(input) =~= p);
    assert(after_dot(input) =~= part);
    assert(input.last() == part.last());
    if input.last() == '.' {
        assert(part.contains(part.last()));
    }
    assert(completions(v, input) == for_name(v, input)) by {
        assert(seq!['.'].last() == '.');
    }
    lemma_is_path(p);
    let ctx = value_before_dot(v, p);
    lemma_filters(ctx, part);
    lemma_filters(ctx, word);
    lemma_word_part(word, junk);
    lemma_sorts(resolve(v, part));
    lemma_sorts(resolve(v, input));
}

/// For a name that is being typed with no dot before it, the longer names of the document that begin
/// with it are offered, or else what follows the value that it leads to.
pub proof fn law_name_alone(v: JsonView, part: Seq<char>)
    requires
        part.len() > 0,
        !part.contains('.'),
    ensures
        going_on_from(v, part).len() > 0 ==> completions(v, part) == going_on_from(v, part),
        going_on_from(v, part).len() == 0 ==> follows(completions(v, part), resolve(v, part)),
{
    part.index_of_last_ensures('.');
    assert(before_dot(part) =~= Seq::empty());
    assert(after_dot(part) =~= part);
    if part.last() == '.' {
        assert(part.contains(part.last()));
    }
    assert(completions(v, part) == for_name(v, part)) by {
        assert(seq!['.'].last() == '.');
    }
    assert(plain(before_dot(part)));
    lemma_filters(v, part);
    lemma_sorts(resolve(v, part));
}

proof fn lemma_word_part(word: Seq<char>, junk: Seq<char>)
    requires
        word.len() > 0 ==> alphanumeric(word.last()) || word.last() == '_',
        forall|i: int|
            0 <= i < junk.len() ==> !alphanumeric(#[trigger] junk[i]) && junk[i] != '_',
    ensures
        word_part(word + junk) == word,
    decreases junk.len(),
{
    let all = word + junk;
    if junk.len() == 0 {
        assert(all =~= word);
    } else {
        assert(all.last() == junk[junk.len() - 1]);
        assert(all.drop_last() =~= word + junk.drop_last());
        lemma_word_part(word, junk.drop_last());
    }
}

/// The functions and constants of jq that are offered, in order.
pub open spec fn offered_builtins() -> Seq<Seq<char>> {
    seq![
        "empty"@, "length"@, "keys"@, "has"@, "map"@, "select"@, "del"@, "add"@, "sort"@,
        "reverse"@, "unique"@, "contains"@, "startswith"@, "endswith"@, "tonumber"@, "tostring"@,
        "type"@, "null"@, "true"@, "false"@,
    ]
}

/// Before anything is typed, what can follow the document comes first, each with a dot: the sorted
/// fields of an object, or `[]`. Behind it come all the builtins.
pub proof fn law_nothing_typed(v: JsonView)
    ensures
        ({
            let list = completions(v, Seq::empty());
            let n = list.len() - offered_builtins().len();
            &&& n >= 0
            &&& list.skip(n) == offered_builtins()
            &&& v is Object ==> sorts_dotted(list.take(n), field_names(v))
            &&& v is Array ==> list.take(n) == seq![seq!['.', '[', ']']]
            &&& !(v is Object) && !(v is Array) ==> n == 0
        }),
{
    lemma_sorts(v);
    let first = match v {
        JsonView::Object(_) => dotted(sorted_keys(v)),
        JsonView::Array(_) => seq![seq!['.', '[', ']']],
        _ => Seq::empty(),
    };
    let b = builtins();
    assert(b =~= offered_builtins());
    lemma_builtins_differ();
    assert forall|i: int, j: int| 0 <= i < first.len() && 0 <= j < b.len() implies #[trigger] first[i]
        != #[trigger] b[j] by {
        assert(first[i][0] == '.');
        assert(mark(b[j]) == j);
    }
    assert forall|i: int, j: int| 0 <= i < j < b.len() implies #[trigger] b[i] != #[trigger] b[j] by {
        assert(mark(b[i]) == i);
        assert(mark(b[j]) == j);
    }
    lemma_nothing_missing(first, b);
    let list = completions(v, Seq::empty());
    assert(list == first + b);
    let n = first.len() as int;
    assert(list.skip(n) =~= b);
    assert(list.take(n) =~= first);
}

proof fn lemma_nothing_missing(list: Seq<Seq<char>>, extra: Seq<Seq<char>>)
    requires
        forall|i: int, j: int|
            0 <= i < list.len() && 0 <= j < extra.len() ==> #[trigger] list[i] != #[trigger] extra[j],
        forall|i: int, j: int| 0 <= i < j < extra.len() ==> #[trigger] extra[i] != #[trigger] extra[j],
    ensures
        with_missing(list, extra) == list + extra,
    decreases extra.len(),
{
    if extra.len() == 0 {
        assert(list + extra =~= list);
    } else {
        let most = extra.drop_last();
        lemma_nothing_missing(list, most);
        let so_far = list + most;
        if so_far.contains(extra.last()) {
            let k = choose|k: int| 0 <= k < so_far.len() && so_far[k] == extra.last();
            if k < list.len() {
                assert(list[k] != extra[extra.len() - 1]);
            } else {
                assert(extra[k - list.len()] != extra[extra.len() - 1]);
            }
        }
        assert(list + extra =~= so_far.push(extra.last()));
    }
}

/// Tells the builtins apart by their length and two of their characters.
spec fn mark(s: Seq<char>) -> int {
    if s.len() == 5 {
        if s[0] == 'e' { 0 } else if s[0] == 'f' { 19 } else { -1 }
    } else if s.len() == 6 {
        if s[0] == 'l' { 1 } else if s[0] == 's' { 5 } else if s[0] == 'u' { 10 } else { -1 }
    } else if s.len() == 4 {
        if s[0] == 'k' { 2 } else if s[0] == 's' { 8 } else if s[0] == 'n' { 17 }
        else if s[0] == 't' && s[2] == 'p' { 16 } else if s[0] == 't' { 18 } else { -1 }
    } else if s.len() == 3 {
        if s[0] == 'h' { 3 } else if s[0] == 'm' { 4 } else if s[0] == 'd' { 6 }
        else if s[0] == 'a' { 7 } else { -1 }
    } else if s.len() == 7 {
        if s[0] == 'r' { 9 } else { -1 }
    } else if s.len() == 8 {
        if s[0] == 'c' { 11 } else if s[0] == 'e' { 13 }
        else if s[0] == 't' && s[2] == 'n' { 14 } else if s[0] == 't' { 15 } else { -1 }
    } else if s.len() == 10 {
        if s[0] == 's' { 12 } else { -1 }
    } else {
        -1
    }
}

proof fn lemma_builtins_differ()
    ensures
        forall|i: int| 0 <= i < 20 ==> mark(#[trigger] builtins()[i]) == i,
{
    reveal_strlit("empty");
    reveal_strlit("length");
    reveal_strlit("keys");
    reveal_strlit("has");
    reveal_strlit("map");
    reveal_strlit("select");
    reveal_strlit("del");
    reveal_strlit("add");
    reveal_strlit("sort");
    reveal_strlit("reverse");
    reveal_strlit("unique");
    reveal_strlit("contains");
    reveal_strlit("startswith");
    reveal_strlit("endswith");
    reveal_strlit("tonumber");
    reveal_strlit("tostring");
    reveal_strlit("type");
    reveal_strlit("null");
    reveal_strlit("true");
    reveal_strlit("false");
}

/// How many more parentheses are opened than closed in `s`.
pub open spec fn depth(s: Seq<char>) -> int
    decreases s.len(),
{
    if s.len() == 0 {
        0
    } else {
        depth(s.drop_last()) + if s.last() == '(' {
            1int
        } else if s.last() == ')' {
            -1
        } else {
            0
        }
    }
}

/// Every parenthesis of `s` has its partner in `s`.
pub open spec fn balanced(s: Seq<char>) -> bool {
    depth(s) == 0 && forall|k: int| 0 <= k <= s.len() ==> #[trigger] depth(s.take(k)) >= 0
}

proof fn lemma_parens_behind(x: Seq<char>, y: Seq<char>)
    requires
        forall|k: int| 0 <= k <= y.len() ==> #[trigger] depth(y.take(k)) >= 0,
    ensures
        open_parens(x + y).len() == open_parens(x).len() + depth(y),
        open_parens(x + y).take(open_parens(x).len() as int) == open_parens(x),
    decreases y.len(),
{
    if y.len() == 0 {
        assert(x + y =~= x);
        assert(open_parens(x).take(open_parens(x).len() as int) =~= open_parens(x));
    } else {
        let most = y.drop_last();
        assert forall|k: int| 0 <= k <= most.len() implies #[trigger] depth(most.take(k)) >= 0 by {
            assert(most.take(k) =~= y.take(k));
        }
        lemma_parens_behind(x, most);
        assert((x + y).drop_last() =~= x + most);
        assert(depth(y.take(y.len() as int)) >= 0);
        assert(y.take(y.len() as int) =~= y);
        assert((x + y).last() == y.last());
        let n = open_parens(x).len() as int;
        let before = open_parens(x + most);
        assert(open_parens(x + y).take(n) =~= before.take(n));
    }
}

proof fn lemma_closed(t: Seq<char>)
    requires
        balanced(t) || !t.contains('('),
    ensures
        open_parens(t).len() == 0,
    decreases t.len(),
{
    if balanced(t) {
        lemma_parens_behind(Seq::empty(), t);
        assert(Seq::empty() + t =~= t);
    } else if t.len() > 0 {
        let most = t.drop_last();
        if most.contains('(') {
            let k = choose|k: int| 0 <= k < most.len() && most[k] == '(';
            assert(t[k] == '(');
        }
        assert(t.contains(t.last()));
        lemma_closed(most);
    }
}

/// Every parenthesis that is opened in `s` is closed further on: behind it there comes a place up to
/// which more are closed than opened.
pub open spec fn nothing_open(s: Seq<char>) -> bool {
    forall|k: int|
        0 <= k < s.len() && #[trigger] s[k] == '(' ==> exists|j: int|
            k < j < s.len() && #[trigger] depth(s.subrange(k + 1, j + 1)) < 0
}

proof fn lemma_never_closed(s: Seq<char>, k: int)
    requires
        0 <= k < open_parens(s).len(),
    ensures
        ({
            let p = open_parens(s)[k];
            &&& 0 <= p < s.len()
            &&& s[p] == '('
            &&& depth(s.skip(p + 1)) == open_parens(s).len() - k - 1
            &&& forall|j: int| p < j < s.len() ==> #[trigger] depth(s.subrange(p + 1, j + 1)) >= 0
        }),
    decreases s.len(),
{
    let most = s.drop_last();
    let before = open_parens(most);
    let n = s.len() as int;
    let p = open_parens(s)[k];
    if s.last() == '(' && k == before.len() {
        assert(s.skip(p + 1) =~= Seq::empty());
    } else {
        lemma_never_closed(most, k);
        assert(p == before[k]);
        assert(s.skip(p + 1).drop_last() =~= most.skip(p + 1));
        assert forall|j: int| p < j < n implies #[trigger] depth(s.subrange(p + 1, j + 1)) >= 0 by {
            if j < n - 1 {
                assert(s.subrange(p + 1, j + 1) =~= most.subrange(p + 1, j + 1));
            } else {
                assert(s.subrange(p + 1, j + 1) =~= s.skip(p + 1));
            }
        }
    }
}

/// Outside of any call, what is offered is the completions of the text before the cursor; behind a
/// closing parenthesis nothing is offered.
pub proof fn law_offered_outside(v: JsonView, t: Seq<char>)
    ensures
        t.len() > 0 && t.last() == ')' ==> offers(v, t).len() == 0,
        (balanced(t) || !t.contains('(') || nothing_open(t)) && !(t.len() > 0 && t.last() == ')')
            ==> offers(v, t) == completions(v, t),
{
    if balanced(t) || !t.contains('(') {
        lemma_closed(t);
    } else if nothing_open(t) && open_parens(t).len() > 0 {
        lemma_never_closed(t, 0);
        let p = open_parens(t)[0];
        assert(t[p] == '(');
        let j = choose|j: int| p < j < t.len() && #[trigger] depth(t.subrange(p + 1, j + 1)) < 0;
        assert(depth(t.subrange(p + 1, j + 1)) >= 0);
    }
}

proof fn lemma_inside(x: Seq<char>, t: Seq<char>)
    requires
        balanced(t),
    ensures
        open_parens(x + seq!['('] + t).len() > 0,
        local_part(x + seq!['('] + t) == t,
{
    let call = x + seq!['('];
    assert(call.drop_last() =~= x);
    assert(call.last() == '(');
    lemma_parens_behind(call, t);
    let s = call + t;
    let n = open_parens(call).len() as int;
    assert(open_parens(s).len() == n);
    assert(open_parens(s).take(n) =~= open_parens(s));
    assert(open_parens(s).last() == x.len());
    assert(s.skip(x.len() as int + 1) =~= t);
}

/// Behind an open parenthesis, text is completed as it would be alone: on the first element of a
/// document that is an array, and on any other document itself.
pub proof fn law_offered_in_a_call(v: JsonView, x: Seq<char>, t: Seq<char>)
    requires
        t.len() > 0,
        balanced(t),
    ensures
        v matches JsonView::Array(a) ==> offers(v, x + seq!['('] + t) == if a.len() > 0 {
            offers(a[0], t)
        } else {
            offers(v, t)
        },
        !(v is Array) ==> offers(v, x + seq!['('] + t) == offers(v, t),
{
    let s = x + seq!['('] + t;
    lemma_inside(x, t);
    lemma_closed(t);
    assert(s.last() == t.last());
}

/// Right behind an open parenthesis, what is offered before anything is typed is offered, on the
/// first element of an array or on any other document itself, each with a dot before it.
pub proof fn law_offered_at_the_start_of_a_call(v: JsonView, x: Seq<char>, i: int)
    ensures
        ({
            let root = match v {
                JsonView::Array(a) => if a.len() > 0 {
                    a[0]
                } else {
                    v
                },
                _ => v,
            };
            let alone = completions(root, Seq::empty());
            let list = offers(v, x.push('('));
            &&& list.len() == alone.len()
            &&& 0 <= i < list.len() ==> list[i].len() > 0 && list[i][0] == '.' && (list[i] == alone[i]
                || list[i].drop_first() == alone[i])
            &&& 0 <= i < list.len() && alone[i].len() > 0 && alone[i][0] == '.' ==> list[i] == alone[i]
        }),
{
    let e = Seq::<char>::empty();
    assert(depth(e) == 0);
    assert(forall|k: int| 0 <= k <= e.len() ==> #[trigger] depth(e.take(k)) == 0) by {
        assert(e.take(0) =~= e);
    }
    lemma_inside(x, e);
    assert(x + seq!['('] + e =~= x.push('('));
    let root = match v {
        JsonView::Array(a) => if a.len() > 0 {
            a[0]
        } else {
            v
        },
        _ => v,
    };
    let alone = completions(root, e);
    let list = offers(v, x.push('('));
    assert(list == Seq::new(alone.len(), |i: int| crate::app::with_dot(alone[i])));
    if 0 <= i < list.len() {
        assert((seq!['.'] + alone[i]).drop_first() =~= alone[i]);
    }
}

} // verus!
