//! JSON documents as plain data.

use vstd::prelude::*;

verus! {

/// A JSON value. An object keeps its fields in the order of the document; a fractional number is
/// kept as the bits of its double, with the digits of the document where they are known.
#[derive(Debug)]
pub enum Json {
    Null,
    Bool(bool),
    Int(i64),
    Double(u64, Option<String>),
    Text(String),
    Array(Vec<Json>),
    Object(Vec<(String, Json)>),
}

/// What a JSON value is: the mathematical model of [`Json`].
pub enum JsonView {
    Null,
    Bool(bool),
    Int(i64),
    Double(u64, Option<Seq<char>>),
    Text(Seq<char>),
    Array(Seq<JsonView>),
    Object(Seq<(Seq<char>, JsonView)>),
}

/// The model of a value.
pub open spec fn json_view(j: Json) -> JsonView
    decreases j,
{
    match j {
        Json::Null => JsonView::Null,
        Json::Bool(b) => JsonView::Bool(b),
        Json::Int(n) => JsonView::Int(n),
        Json::Double(bits, raw) => JsonView::Double(
            bits,
            match raw {
                Some(s) => Some(s@),
                None => None,
            },
        ),
        Json::Text(s) => JsonView::Text(s@),
        Json::Array(a) => JsonView::Array(
            Seq::new(
                a@.len(),
                |i: int|
                    if 0 <= i < a@.len() {
                        json_view(a@[i])
                    } else {
                        JsonView::Null
                    },
            ),
        ),
        Json::Object(o) => JsonView::Object(
            Seq::new(
                o@.len(),
                |i: int|
                    if 0 <= i < o@.len() {
                        (o@[i].0@, json_view(o@[i].1))
                    } else {
                        (Seq::empty(), JsonView::Null)
                    },
            ),
        ),
    }
}

impl View for Json {
    type V = JsonView;

    open spec fn view(&self) -> JsonView {
        json_view(*self)
    }
}

impl JsonView {
    /// The field names of an object, or of the object that an array begins with, in the order of
    /// the document.
    pub open spec fn keys(self) -> Seq<Seq<char>> {
        match self {
            JsonView::Object(o) => names(o),
            JsonView::Array(a) => if a.len() > 0 {
                match a[0] {
                    JsonView::Object(o) => names(o),
                    _ => Seq::empty(),
                }
            } else {
                Seq::empty()
            },
            _ => Seq::empty(),
        }
    }

    /// The first field named `name`, if there is one.
    pub open spec fn field(self, name: Seq<char>) -> Option<JsonView> {
        match self {
            JsonView::Object(o) => match names(o).index_of_first(name) {
                Some(i) => Some(o[i].1),
                None => None,
            },
            _ => None,
        }
    }

    /// The first element of an array, if there is one.
    pub open spec fn first(self) -> Option<JsonView> {
        match self {
            JsonView::Array(a) => if a.len() > 0 {
                Some(a[0])
            } else {
                None
            },
            _ => None,
        }
    }

    /// How many results the value counts as when it is shown whole: an array counts its elements.
    pub open spec fn count(self) -> nat {
        match self {
            JsonView::Array(a) => a.len(),
            _ => 1,
        }
    }

    /// The name that jq gives to the value's type.
    pub open spec fn kind(self) -> Seq<char> {
        match self {
            JsonView::Null => "null"@,
            JsonView::Bool(_) => "boolean"@,
            JsonView::Int(_) => "number"@,
            JsonView::Double(..) => "number"@,
            JsonView::Text(_) => "string"@,
            JsonView::Array(_) => "array"@,
            JsonView::Object(_) => "object"@,
        }
    }
}

/// A copy of a value.
fn copy_of(j: &Json) -> (r: Json)
    ensures
        r@ == j@,
    decreases j,
{
    match j {
        Json::Null => Json::Null,
        Json::Bool(b) => Json::Bool(*b),
        Json::Int(n) => Json::Int(*n),
        Json::Double(bits, raw) => Json::Double(
            *bits,
            match raw {
                Some(s) => Some(s.clone()),
                None => None,
            },
        ),
        Json::Text(s) => Json::Text(s.clone()),
        Json::Array(a) => {
            let mut v: Vec<Json> = Vec::new();
            let mut i: usize = 0;
            while i < a.len()
                invariant
                    j is Array,
                    *a == j->Array_0,
                    i == v@.len() <= a@.len(),
                    forall|k: int| 0 <= k < i ==> (#[trigger] v@[k])@ == a@[k]@,
                decreases a@.len() - i,
            {
                v.push(copy_of(&a[i]));
                i += 1;
            }
            let r = Json::Array(v);
            assert(r@->Array_0 =~= j@->Array_0);
            r
        },
        Json::Object(o) => {
            let mut v: Vec<(String, Json)> = Vec::new();
            let mut i: usize = 0;
            while i < o.len()
                invariant
                    j is Object,
                    *o == j->Object_0,
                    i == v@.len() <= o@.len(),
                    forall|k: int|
                        0 <= k < i ==> (#[trigger] v@[k]).0@ == o@[k].0@ && v@[k].1@ == o@[k].1@,
                decreases o@.len() - i,
            {
                v.push((o[i].0.clone(), copy_of(&o[i].1)));
                i += 1;
            }
            let r = Json::Object(v);
            assert(r@->Object_0 =~= j@->Object_0);
            r
        },
    }
}

impl Clone for Json {
    fn clone(&self) -> (r: Json)
        ensures
            r@ == self@,
    {
        copy_of(self)
    }
}

impl Json {
    /// The name that jq gives to the value's type.
    pub fn kind(&self) -> (r: &'static str)
        ensures
            r@ == self@.kind(),
    {
        match self {
            Json::Null => "null",
            Json::Bool(_) => "boolean",
            Json::Int(_) => "number",
            Json::Double(..) => "number",
            Json::Text(_) => "string",
            Json::Array(_) => "array",
            Json::Object(_) => "object",
        }
    }

    /// How many results the value counts as when it is shown whole.
    pub fn count(&self) -> (r: usize)
        ensures
            r == self@.count(),
    {
        match self {
            Json::Array(a) => a.len(),
            _ => 1,
        }
    }
}

/// The names of a list of fields.
pub open spec fn names(o: Seq<(Seq<char>, JsonView)>) -> Seq<Seq<char>> {
    Seq::new(o.len(), |i: int| o[i].0)
}

} // verus!
