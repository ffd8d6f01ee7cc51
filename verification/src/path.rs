//! Dotted paths into a document.

use crate::json::{names, Json, JsonView};
use crate::text::{chars_of, same_text, text_of};
use std::borrow::Cow;
use vstd::prelude::*;

verus! {

/// Where the first `[]` of a path segment begins; the end of the segment where there is none.
pub open spec fn brackets_at(seg: Seq<char>) -> int
    decreases seg.len(),
{
    if seg.len() < 2 {
        seg.len() as int
    } else if seg[0] == '[' && seg[1] == ']' {
        0
    } else {
        1 + brackets_at(seg.drop_first())
    }
}

/// Goes down into the first element once for each `[]` that `rest` begins with.
pub open spec fn descend(v: JsonView, rest: Seq<char>) -> Option<JsonView>
    decreases rest.len(),
{
    if rest.len() >= 2 && rest[0] == '[' && rest[1] == ']' {
        match v.first() {
            Some(w) => descend(w, rest.skip(2)),
            None => None,
        }
    } else {
        Some(v)
    }
}

/// What a field is looked up in: `v` itself, or the first element of an array where `through`
/// says to look through arrays.
pub open spec fn enter(through: bool, v: JsonView) -> Option<JsonView> {
    if through && v is Array {
        v.first()
    } else {
        Some(v)
    }
}

/// The field of `v` that a name stands for; `v` itself where the name is empty.
pub open spec fn named(through: bool, v: JsonView, name: Seq<char>) -> Option<JsonView> {
    if name.len() == 0 {
        Some(v)
    } else {
        match enter(through, v) {
            Some(w) => w.field(name),
            None => None,
        }
    }
}

/// Follows one segment: a field name (possibly empty), then `[]` any number of times.
pub open spec fn step(through: bool, v: JsonView, seg: Seq<char>) -> Option<JsonView> {
    let b = brackets_at(seg);
    match named(through, v, seg.take(b)) {
        Some(w) => descend(w, seg.skip(b)),
        None => None,
    }
}

/// Follows a path, segment by segment; `None` where a step fails.
pub open spec fn walk(through: bool, v: JsonView, path: Seq<char>) -> Option<JsonView>
    decreases path.len(),
{
    proof {
        path.index_of_first_ensures('.');
    }
    match path.index_of_first('.') {
        None => step(through, v, path),
        Some(d) => match step(through, v, path.take(d)) {
            Some(w) => walk(through, w, path.skip(d + 1)),
            None => None,
        },
    }
}

/// The node that a path leads to, if it leads anywhere. From an array the path is followed in the
/// first element, at each step.
pub open spec fn reached(v: JsonView, path: Seq<char>) -> Option<JsonView> {
    walk(v is Array, v, path)
}

/// What a path leads to; null where it leads nowhere.
pub open spec fn resolve(v: JsonView, path: Seq<char>) -> JsonView {
    match reached(v, path) {
        Some(w) => w,
        None => JsonView::Null,
    }
}

/// `[]` stands at position `k`.
spec fn pair_at(seg: Seq<char>, k: int) -> bool {
    k + 1 < seg.len() && seg[k] == '[' && seg[k + 1] == ']'
}

proof fn lemma_brackets_at(seg: Seq<char>, b: int)
    requires
        0 <= b <= seg.len(),
        forall|k: int| 0 <= k < b ==> !pair_at(seg, k),
        b == seg.len() || pair_at(seg, b),
    ensures
        brackets_at(seg) == b,
    decreases seg.len(),
{
    if seg.len() >= 2 && b > 0 {
        assert(!pair_at(seg, 0));
        let rest = seg.drop_first();
        assert forall|k: int| 0 <= k < b - 1 implies !pair_at(rest, k) by {
            assert(!pair_at(seg, k + 1));
        }
        lemma_brackets_at(rest, b - 1);
    }
}

/// A path with a dot in it is followed in two halves: what the second half leads to from what the
/// first half leads to.
pub proof fn law_walk_composes(through: bool, v: JsonView, a: Seq<char>, b: Seq<char>)
    ensures
        walk(through, v, a.push('.') + b) == match walk(through, v, a) {
            Some(w) => walk(through, w, b),
            None => None,
        },
    decreases a.len(),
{
    let path = a.push('.') + b;
    a.index_of_first_ensures('.');
    path.index_of_first_ensures('.');
    assert(path[a.len() as int] == '.');
    assert(path.contains('.'));
    let d = path.index_of_first('.')->0;
    match a.index_of_first('.') {
        None => {
            if d < a.len() {
                assert(a[d] == path[d]);
            }
            assert(path.take(d) =~= a);
            assert(path.skip(d + 1) =~= b);
        },
        Some(e) => {
            assert(path[e] == '.');
            if d < e {
                assert(a[d] == path[d]);
            }
            assert(path.take(d) =~= a.take(e));
            let rest = a.skip(e + 1);
            assert(path.skip(d + 1) =~= rest.push('.') + b);
            if let Some(w) = step(through, v, a.take(e)) {
                law_walk_composes(through, w, rest, b);
            }
        },
    }
}

/// On the way along a path a field is looked up in an array.
pub open spec fn meets_array(v: JsonView, path: Seq<char>) -> bool
    decreases path.len(),
{
    proof {
        path.index_of_first_ensures('.');
    }
    match path.index_of_first('.') {
        None => v is Array && brackets_at(path) > 0,
        Some(d) => {
            ||| v is Array && brackets_at(path.take(d)) > 0
            ||| match step(false, v, path.take(d)) {
                Some(w) => meets_array(w, path.skip(d + 1)),
                None => false,
            }
        },
    }
}

proof fn lemma_walk_plainly(v: JsonView, path: Seq<char>)
    requires
        !meets_array(v, path),
    ensures
        walk(true, v, path) == walk(false, v, path),
    decreases path.len(),
{
    path.index_of_first_ensures('.');
    match path.index_of_first('.') {
        None => {
            lemma_brackets_range(path);
        },
        Some(d) => {
            lemma_brackets_range(path.take(d));
            if let Some(w) = step(false, v, path.take(d)) {
                lemma_walk_plainly(w, path.skip(d + 1));
            }
        },
    }
}

proof fn lemma_brackets_range(seg: Seq<char>)
    ensures
        0 <= brackets_at(seg) <= seg.len(),
    decreases seg.len(),
{
    if seg.len() >= 2 && !(seg[0] == '[' && seg[1] == ']') {
        lemma_brackets_range(seg.drop_first());
    }
}

proof fn lemma_resolve_null(path: Seq<char>)
    ensures
        resolve(JsonView::Null, path) == JsonView::Null,
    decreases path.len(),
{
    path.index_of_first_ensures('.');
    if let Some(d) = path.index_of_first('.') {
        lemma_resolve_null(path.skip(d + 1));
    }
}

/// What a path with a dot in it leads to is what its second half leads to from what its first half
/// leads to. Arrays are looked through only from an array, so where just one of the two starts is
/// an array this leaves out a second half that looks a field up in an array.
pub proof fn law_resolve_composes(v: JsonView, a: Seq<char>, b: Seq<char>)
    requires
        (v is Array) == (resolve(v, a) is Array) || !meets_array(resolve(v, a), b),
    ensures
        resolve(v, a.push('.') + b) == resolve(resolve(v, a), b),
{
    law_walk_composes(v is Array, v, a, b);
    match reached(v, a) {
        Some(w) => {
            if (v is Array) != (w is Array) {
                lemma_walk_plainly(w, b);
            }
        },
        None => {
            lemma_resolve_null(b);
        },
    }
}

/// The first field of an object named `name`.
fn find_field<'a>(o: &'a Vec<(String, Json)>, name: &str) -> (r: Option<&'a Json>)
    ensures
        match r {
            Some(j) => Json::Object(*o)@.field(name@) == Some(j@),
            None => Json::Object(*o)@.field(name@) is None,
        },
{
    let ghost fields = Json::Object(*o)@->Object_0;
    let mut i: usize = 0;
    while i < o.len()
        invariant
            fields == Json::Object(*o)@->Object_0,
            i <= o@.len(),
            forall|k: int| 0 <= k < i ==> names(fields)[k] != name@,
        decreases o@.len() - i,
    {
        if same_text(o[i].0.as_str(), name) {
            proof {
                assert(names(fields)[i as int] == name@);
                names(fields).index_of_first_ensures(name@);
            }
            return Some(&o[i].1);
        }
        i += 1;
    }
    proof {
        names(fields).index_of_first_ensures(name@);
    }
    None
}

/// Follows the segment `from..to` of a path.
fn follow<'a>(cur: &'a Json, chars: &Vec<char>, from: usize, to: usize, through: bool) -> (r:
    Option<&'a Json>)
    requires
        from <= to <= chars@.len(),
    ensures
        match r {
            Some(j) => step(through, cur@, chars@.subrange(from as int, to as int)) == Some(j@),
            None => step(through, cur@, chars@.subrange(from as int, to as int)) is None,
        },
{
    let ghost seg = chars@.subrange(from as int, to as int);
    let mut b: usize = from;
    while b < to && !(b + 1 < to && chars[b] == '[' && chars[b + 1] == ']')
        invariant
            from <= b <= to <= chars@.len(),
            seg == chars@.subrange(from as int, to as int),
            forall|k: int| 0 <= k < b - from ==> !pair_at(seg, k),
        ensures
            b == to || (b + 1 < to && chars@[b as int] == '[' && chars@[b + 1] == ']'),
        decreases to - b,
    {
        b += 1;
    }
    proof {
        lemma_brackets_at(seg, b - from);
    }
    let ghost rest = seg.skip(b - from);
    let mut here: &'a Json = cur;
    if b > from {
        let name = text_of(chars, from, b);
        assert(name@ == seg.take(b - from));
        if through {
            if let Json::Array(a) = here {
                if a.len() == 0 {
                    return None;
                }
                here = &a[0];
            }
        }
        assert(enter(through, cur@) == Some(here@));
        let found = match here {
            Json::Object(o) => find_field(o, name.as_str()),
            _ => None,
        };
        match found {
            Some(j) => {
                here = j;
            },
            None => {
                return None;
            },
        }
    }
    assert(named(through, cur@, seg.take(b - from)) == Some(here@));
    let mut p: usize = b;
    assert(rest.skip(0) =~= rest);
    while to - p >= 2 && chars[p] == '[' && chars[p + 1] == ']'
        invariant
            from <= b <= p <= to <= chars@.len(),
            seg == chars@.subrange(from as int, to as int),
            rest == seg.skip(b - from),
            step(through, cur@, seg) == descend(here@, rest.skip(p - b)),
        ensures
            !(to - p >= 2 && chars@[p as int] == '[' && chars@[p + 1] == ']'),
        decreases to - p,
    {
        let ghost left = rest.skip(p - b);
        assert(left[0] == chars@[p as int] && left[1] == chars@[p + 1]);
        assert(left.skip(2) =~= rest.skip(p + 2 - b));
        match here {
            Json::Array(a) if a.len() > 0 => {
                here = &a[0];
            },
            _ => {
                return None;
            },
        }
        p += 2;
    }
    proof {
        let left = rest.skip(p - b);
        assert(left.len() >= 2 ==> left[0] == chars@[p as int] && left[1] == chars@[p + 1]);
    }
    Some(here)
}

/// What `path` leads to in `value`. A node that is reached is borrowed from `value`; where a step
/// fails the result is a null of its own.
///
/// A segment is a field name followed by `[]` any number of times, and `[]` goes down into the
/// first element. From an array the path is followed in the first element, at each step, so that
/// the result is what `map(...)` and `select(...)` see.
pub fn resolve_path<'a>(value: &'a Json, path: &str) -> (r: Cow<'a, Json>)
    ensures
        r@ == resolve(value@, path@),
        match r {
            Cow::Borrowed(j) => reached(value@, path@) == Some(j@),
            Cow::Owned(j) => reached(value@, path@) is None && j is Null,
        },
{
    let chars = chars_of(path);
    let through = match value {
        Json::Array(_) => true,
        _ => false,
    };
    let mut cur: &'a Json = value;
    let mut from: usize = 0;
    assert(path@.skip(0) =~= path@);
    loop
        invariant
            chars@ == path@,
            from <= chars@.len(),
            through == (value@ is Array),
            reached(value@, path@) == walk(through, cur@, path@.skip(from as int)),
        decreases chars@.len() - from,
    {
        let ghost left = path@.skip(from as int);
        let mut to: usize = from;
        while to < chars.len() && chars[to] != '.'
            invariant
                chars@ == path@,
                from <= to <= chars@.len(),
                forall|k: int| from <= k < to ==> chars@[k] != '.',
            ensures
                to == chars@.len() || chars@[to as int] == '.',
            decreases chars@.len() - to,
        {
            to += 1;
        }
        let next = follow(cur, &chars, from, to, through);
        proof {
            left.index_of_first_ensures('.');
            assert(left.take(to - from) =~= chars@.subrange(from as int, to as int));
            if to < chars@.len() {
                assert(left[to - from] == '.');
                assert(left.contains('.'));
                let d = left.index_of_first('.')->0;
                assert(left[d] == chars@[from + d]);
                assert(d == to - from);
                assert(left.skip(d + 1) =~= path@.skip(to + 1));
            } else {
                assert(left.take(to - from) =~= left);
                if left.contains('.') {
                    let d = left.index_of_first('.')->0;
                    assert(left[d] == chars@[from + d]);
                }
            }
        }
        match next {
            Some(j) => {
                cur = j;
            },
            None => {
                return Cow::Owned(Json::Null);
            },
        }
        if to == chars.len() {
            return Cow::Borrowed(cur);
        }
        from = to + 1;
    }
}

} // verus!
