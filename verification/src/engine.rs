//! The filter engine: parsing documents, running filters, writing values.
//!
//! The work is that of the `qj` crate. What this module assumes of it stands in the contracts of
//! the functions that call it.

use crate::ansi::{colors, colors_view, palette_view, Palette};
use crate::json::{Json, JsonView};
use crate::text::{texts, trim, trimmed};
use vstd::prelude::*;
use vstd::utf8::*;

verus! {

#[verifier::external_type_specification]
#[verifier::external_body]
pub struct ExValue(qj::value::Value);

#[verifier::external_type_specification]
#[verifier::external_body]
pub struct ExFilter(qj::filter::Filter);

/// What a value of the engine holds.
pub uninterp spec fn value_of(v: qj::value::Value) -> JsonView;

/// The outermost layer of a value of the engine.
pub enum Layer {
    Null,
    Bool(bool),
    Int(i64),
    Double(u64, Option<String>),
    Text(String),
    Array(Vec<qj::value::Value>),
    Object(Vec<(String, qj::value::Value)>),
}

/// What a layer holds.
pub open spec fn layer_view(l: Layer) -> JsonView {
    match l {
        Layer::Null => JsonView::Null,
        Layer::Bool(b) => JsonView::Bool(b),
        Layer::Int(n) => JsonView::Int(n),
        Layer::Double(bits, raw) => JsonView::Double(
            bits,
            match raw {
                Some(s) => Some(s@),
                None => None,
            },
        ),
        Layer::Text(s) => JsonView::Text(s@),
        Layer::Array(a) => JsonView::Array(Seq::new(a@.len(), |i: int| value_of(a@[i]))),
        Layer::Object(o) => JsonView::Object(
            Seq::new(o@.len(), |i: int| (o@[i].0@, value_of(o@[i].1))),
        ),
    }
}

/// Takes one layer off a `qj::value::Value`: one variant of [`Layer`] for each of its variants,
/// with the same contents. A double is given by its bits.
#[verifier::external_body]
fn layer_of(v: &qj::value::Value) -> (r: Layer)
    ensures
        layer_view(r) == value_of(*v),
{
    match v {
        qj::value::Value::Null => Layer::Null,
        qj::value::Value::Bool(b) => Layer::Bool(*b),
        qj::value::Value::Int(n) => Layer::Int(*n),
        qj::value::Value::Double(f, raw) => {
            Layer::Double(f.to_bits(), raw.as_ref().map(|s| s.to_string()))
        },
        qj::value::Value::String(s) => Layer::Text(s.clone()),
        qj::value::Value::Array(a) => Layer::Array(a.to_vec()),
        qj::value::Value::Object(o) => Layer::Object(o.to_vec()),
    }
}

/// A value of the engine as plain data.
pub fn to_json(v: &qj::value::Value) -> (r: Json)
    ensures
        r@ == value_of(*v),
    decreases value_of(*v),
{
    match layer_of(v) {
        Layer::Null => Json::Null,
        Layer::Bool(b) => Json::Bool(b),
        Layer::Int(n) => Json::Int(n),
        Layer::Double(bits, raw) => Json::Double(bits, raw),
        Layer::Text(s) => Json::Text(s),
        Layer::Array(a) => {
            let mut out: Vec<Json> = Vec::new();
            let mut i: usize = 0;
            while i < a.len()
                invariant
                    value_of(*v) == layer_view(Layer::Array(a)),
                    i == out@.len() <= a@.len(),
                    forall|k: int| 0 <= k < i ==> (#[trigger] out@[k])@ == value_of(a@[k]),
                decreases a@.len() - i,
            {
                assert(value_of(*v)->Array_0[i as int] == value_of(a@[i as int]));
                out.push(to_json(&a[i]));
                i += 1;
            }
            let r = Json::Array(out);
            assert(r@->Array_0 =~= value_of(*v)->Array_0);
            r
        },
        Layer::Object(o) => {
            let mut out: Vec<(String, Json)> = Vec::new();
            let mut i: usize = 0;
            while i < o.len()
                invariant
                    value_of(*v) == layer_view(Layer::Object(o)),
                    i == out@.len() <= o@.len(),
                    forall|k: int|
                        0 <= k < i ==> (#[trigger] out@[k]).0@ == o@[k].0@ && out@[k].1@
                            == value_of(o@[k].1),
                decreases o@.len() - i,
            {
                assert(value_of(*v)->Object_0[i as int].1 == value_of(o@[i as int].1));
                out.push((o[i].0.clone(), to_json(&o[i].1)));
                i += 1;
            }
            let r = Json::Object(out);
            assert(r@->Object_0 =~= value_of(*v)->Object_0);
            r
        },
    }
}

/// How many zero bytes the parser reads past the end of a document.
pub const PADDING: usize = 64;

/// `bytes` followed by the padding that the parser needs.
pub open spec fn padded(bytes: Seq<u8>) -> Seq<u8> {
    bytes + Seq::new(PADDING as nat, |i: int| 0u8)
}

/// `qj::simdjson::pad_buffer`: a copy of the bytes with zero bytes behind it, as many as the parser
/// needs.
pub assume_specification[ qj::simdjson::pad_buffer ](data: &[u8]) -> (r: Vec<u8>)
    requires
        data@.len() + PADDING <= isize::MAX,
    ensures
        r@ == padded(data@),
;

/// The value that the parser reads from the bytes of a document where it accepts them.
pub uninterp spec fn parsed(bytes: Seq<u8>) -> JsonView;

/// `message` is one that the parser can give for bytes that it refuses.
pub uninterp spec fn refused_with(bytes: Seq<u8>, message: Seq<char>) -> bool;

/// `qj::simdjson::dom_parse_to_value`: reads the first `len` bytes, which are UTF-8, of a padded
/// buffer. Where it accepts them, what it reads depends on those bytes alone and is named, not
/// spelled out. It is not said which bytes it accepts: the parser has several back ends, and an
/// environment variable can choose one of them, or none, so that every document is refused. The
/// message holds an error code, which the back end has a part in too, so it is tied to the bytes by
/// a relation.
#[verifier::external_body]
fn parse_value(buf: &[u8], len: usize) -> (r: Result<qj::value::Value, String>)
    requires
        len <= buf@.len(),
        buf@ == padded(buf@.take(len as int)),
        valid_utf8(buf@.take(len as int)),
    ensures
        match r {
            Ok(v) => parsed(buf@.take(len as int)) == value_of(v),
            Err(m) => refused_with(buf@.take(len as int), m@),
        },
{
    match qj::simdjson::dom_parse_to_value(buf, len) {
        Ok(v) => Ok(v),
        Err(e) => Err(format!("{e}")),
    }
}

/// A parsed document: the engine's value, and the same value as plain data.
pub struct Document {
    json: Json,
    value: qj::value::Value,
}

impl View for Document {
    type V = JsonView;

    closed spec fn view(&self) -> JsonView {
        self.json@
    }
}

impl Document {
    #[verifier::type_invariant]
    spec fn same(self) -> bool {
        self.json@ == value_of(self.value)
    }

    /// A document that holds a value of the engine.
    pub fn new(value: qj::value::Value) -> (r: Document)
        ensures
            r@ == value_of(value),
    {
        let json = to_json(&value);
        Document { json, value }
    }

    /// Parses the text of a document, or gives the parser's message where it refuses it. Which texts
    /// it accepts is up to the parser.
    pub fn parse(text: &str) -> (r: Result<Document, String>)
        requires
            encode_utf8(text@).len() + PADDING <= isize::MAX,
        ensures
            match r {
                Ok(d) => parsed(encode_utf8(text@)) == d@,
                Err(m) => refused_with(encode_utf8(text@), m@),
            },
    {
        let bytes = text.as_bytes();
        let buf = qj::simdjson::pad_buffer(bytes);
        assert(buf@.take(bytes@.len() as int) =~= bytes@);
        proof {
            encode_utf8_valid_utf8(text@);
        }
        match parse_value(buf.as_slice(), bytes.len()) {
            Ok(value) => Ok(Document::new(value)),
            Err(message) => Err(message),
        }
    }

    /// The document as plain data.
    pub fn json(&self) -> (r: &Json)
        ensures
            r@ == self@,
    {
        &self.json
    }
}

/// The bytes that the engine writes for a value: pretty-printed with an indent and with the
/// escapes of a palette, and, unless the output is to be joined, a line end.
pub uninterp spec fn pretty(
    v: JsonView,
    indent: Seq<char>,
    palette: Seq<Seq<char>>,
    join: bool,
) -> Seq<u8>;

/// `qj::output::write_value` in its pretty mode, into a buffer. What it writes depends on the value,
/// the indent, the escapes and `join` alone and is named, not spelled out.
#[verifier::external_body]
fn write_pretty(value: &qj::value::Value, indent: &str, p: &Palette, join: bool) -> (r: Vec<u8>)
    ensures
        r@ == pretty(value_of(*value), indent@, palette_view(*p), join),
{
    let color = qj::output::ColorScheme { null: p.null, bool_val: p.bool_val, number: p.number,
        string: p.string, array_bracket: p.array_bracket, object_brace: p.object_brace,
        object_key: p.object_key, reset: p.reset };
    let config = qj::output::OutputConfig { mode: qj::output::OutputMode::Pretty,
        indent: indent.to_string(), join_output: join, color,
        ..qj::output::OutputConfig::default() };
    let mut buf = Vec::new();
    qj::output::write_value(&mut buf, value, &config).ok();
    buf
}

/// The standard library's `String::from_utf8`: the text that the bytes encode, if they are valid
/// UTF-8.
#[verifier::external_body]
fn text_from(bytes: Vec<u8>) -> (r: Option<String>)
    ensures
        match r {
            Some(s) => valid_utf8(bytes@) && s@ == decode_utf8(bytes@),
            None => !valid_utf8(bytes@),
        },
{
    String::from_utf8(bytes).ok()
}

/// `n` spaces.
pub open spec fn spaces(n: nat) -> Seq<char> {
    Seq::new(n, |i: int| ' ')
}

/// The coloured text of a value, indented by `indent` spaces at each level and without a line end
/// behind it.
pub open spec fn rendered(v: JsonView, indent: nat) -> Seq<char> {
    let bytes = pretty(v, spaces(indent), colors_view(), true);
    if valid_utf8(bytes) {
        decode_utf8(bytes)
    } else {
        Seq::empty()
    }
}

/// `n` spaces.
pub fn spaces_text(n: usize) -> (r: String)
    ensures
        r@ == spaces(n as nat),
{
    let mut r = String::new();
    let mut i: usize = 0;
    while i < n
        invariant
            i <= n,
            r@ =~= spaces(i as nat),
        decreases n - i,
    {
        r.push(' ');
        i += 1;
    }
    r
}

/// Writes a value as coloured, pretty-printed text without a line end behind it.
pub fn render_value(value: &qj::value::Value, size: usize) -> (r: String)
    ensures
        r@ == rendered(value_of(*value), size as nat),
{
    let indent = spaces_text(size);
    match text_from(write_pretty(value, indent.as_str(), &colors(), true)) {
        Some(s) => s,
        None => String::new(),
    }
}

/// `f` is a filter that the engine can read from a text.
pub uninterp spec fn reads_as(text: Seq<char>, f: qj::filter::Filter) -> bool;

/// The engine accepts a text as a filter.
pub open spec fn is_filter(text: Seq<char>) -> bool {
    exists|f: qj::filter::Filter| reads_as(text, f)
}

/// `message` is one that the engine can give for a text that is no filter.
pub uninterp spec fn rejected_with(text: Seq<char>, message: Seq<char>) -> bool;

/// `qj::filter::parse`: reads a filter, or says what is wrong with it. Which texts it accepts
/// depends on the text alone. An environment variable has a part in how the filter keeps some
/// numbers and in how the message shows them, so the filter and the message are tied to the text by
/// relations, which are named and not spelled out.
#[verifier::external_body]
fn parse_filter(text: &str) -> (r: Result<qj::filter::Filter, String>)
    ensures
        match r {
            Ok(f) => reads_as(text@, f),
            Err(m) => !is_filter(text@) && rejected_with(text@, m@),
        },
{
    match qj::filter::parse(text) {
        Ok(f) => Ok(f),
        Err(e) => Err(format!("{e}")),
    }
}

/// Puts an output behind those that came before.
fn keep(outputs: &mut Vec<qj::value::Value>, v: qj::value::Value)
    ensures
        final(outputs)@ == old(outputs)@.push(v),
{
    outputs.push(v);
}

/// A run of a filter on a value can give `outputs` and leave `error` behind.
pub uninterp spec fn can_yield(
    f: qj::filter::Filter,
    v: JsonView,
    outputs: Seq<JsonView>,
    error: Option<JsonView>,
) -> bool;

/// What a value holds that may be missing.
pub open spec fn maybe_value(v: Option<qj::value::Value>) -> Option<JsonView> {
    match v {
        Some(e) => Some(value_of(e)),
        None => None,
    }
}

/// Every run of a filter on a value comes to an end, and without a panic.
///
/// This is not so of `range(infinite)`, which goes on for ever; of `.[2:1] = 0` on an array of three
/// elements, an update of a slice whose end lies before its start; or of `env` where a variable of
/// the environment is not Unicode.
pub uninterp spec fn returns_on(f: qj::filter::Filter, v: JsonView) -> bool;

/// `qj::filter::eval::eval_filter`, which runs a filter on a value and hands out its outputs in
/// order, with `qj::filter::eval::take_last_error`, which gives the error value that this run left
/// behind: a run first clears what an earlier one left. A filter can read the clock and the
/// environment, so what it comes to is tied to the filter and the value by a relation, which is
/// named and not spelled out. It is for filters that return; which ones do is named, not spelled
/// out.
#[verifier::external_body]
fn run_filter(filter: &qj::filter::Filter, value: &qj::value::Value) -> (r: (
    Vec<qj::value::Value>,
    Option<qj::value::Value>,
))
    requires
        returns_on(*filter, value_of(*value)),
    ensures
        returns_on(*filter, value_of(*value)) ==> can_yield(
            *filter,
            value_of(*value),
            values_of(r.0@),
            maybe_value(r.1),
        ),
{
    let mut outputs = Vec::new();
    qj::filter::eval::eval_filter(filter, value, &mut |v| keep(&mut outputs, v));
    (outputs, qj::filter::eval::take_last_error())
}

/// How the engine's values look in a debug print.
pub uninterp spec fn debug_print(v: JsonView) -> Seq<char>;

/// The debug print of a `qj::value::Value`. It depends on the value alone and is named, not spelled
/// out.
#[verifier::external_body]
fn debug_text(v: &qj::value::Value) -> (r: String)
    ensures
        r@ == debug_print(value_of(*v)),
{
    format!("{v:?}")
}

/// What a filter came to: the text of its outputs, their number, and what went wrong.
#[derive(Debug)]
pub struct Evaluation {
    pub text: String,
    pub count: usize,
    pub error: Option<String>,
}

/// The model of an [`Evaluation`].
pub struct EvaluationView {
    pub text: Seq<char>,
    pub count: nat,
    pub error: Option<Seq<char>>,
}

/// The characters of a text that may be missing.
pub open spec fn maybe_text(t: Option<String>) -> Option<Seq<char>> {
    match t {
        Some(s) => Some(s@),
        None => None,
    }
}

impl View for Evaluation {
    type V = EvaluationView;

    open spec fn view(&self) -> EvaluationView {
        EvaluationView {
            text: self.text@,
            count: self.count as nat,
            error: maybe_text(self.error),
        }
    }
}

/// Texts with a line end between each two.
pub open spec fn joined(list: Seq<Seq<char>>) -> Seq<char>
    decreases list.len(),
{
    if list.len() == 0 {
        Seq::empty()
    } else if list.len() == 1 {
        list[0]
    } else {
        joined(list.drop_last()).push('\n') + list.last()
    }
}

/// The document as it is shown when there is no filter.
pub open spec fn whole(v: JsonView, indent: nat) -> EvaluationView {
    EvaluationView { text: rendered(v, indent), count: v.count(), error: None }
}

/// What is shown for a text that is no filter.
pub open spec fn rejection(message: Seq<char>) -> EvaluationView {
    EvaluationView { text: Seq::empty(), count: 0, error: Some(message) }
}

/// What is shown for the outputs of a filter and the error that it left behind.
pub open spec fn outcome(
    outputs: Seq<JsonView>,
    error: Option<JsonView>,
    indent: nat,
) -> EvaluationView {
    EvaluationView {
        text: joined(Seq::new(outputs.len(), |i: int| rendered(outputs[i], indent))),
        count: outputs.len(),
        error: match error {
            Some(e) => Some("runtime error: "@ + debug_print(e)),
            None => None,
        },
    }
}

/// What each value of a list holds.
pub open spec fn values_of(list: Seq<qj::value::Value>) -> Seq<JsonView> {
    Seq::new(list.len(), |i: int| value_of(list[i]))
}

/// What is shown for a text that is no filter.
pub fn reject(message: String) -> (r: Evaluation)
    ensures
        r@ == rejection(message@),
{
    Evaluation { text: String::new(), count: 0, error: Some(message) }
}

/// What is shown for the outputs of a filter and the error that it left behind.
pub fn summarize(
    outputs: &Vec<qj::value::Value>,
    error: Option<qj::value::Value>,
    indent: usize,
) -> (r: Evaluation)
    ensures
        r@ == outcome(values_of(outputs@), maybe_value(error), indent as nat),
{
    let ghost shown = Seq::new(
        outputs@.len(),
        |i: int| rendered(value_of(outputs@[i]), indent as nat),
    );
    let mut text = String::new();
    let mut i: usize = 0;
    assert(shown.take(0) =~= Seq::empty());
    while i < outputs.len()
        invariant
            shown == Seq::new(
                outputs@.len(),
                |i: int| rendered(value_of(outputs@[i]), indent as nat),
            ),
            i <= outputs@.len(),
            text@ == joined(shown.take(i as int)),
        decreases outputs@.len() - i,
    {
        let ghost so_far = text@;
        if i > 0 {
            text.push('\n');
        }
        let piece = render_value(&outputs[i], indent);
        text.append(piece.as_str());
        proof {
            let next = shown.take(i + 1);
            assert(next.drop_last() =~= shown.take(i as int));
            assert(next.last() == piece@);
            if i == 0 {
                assert(text@ =~= piece@);
            } else {
                assert(text@ =~= so_far.push('\n') + piece@);
            }
        }
        i += 1;
    }
    proof {
        assert(shown.take(i as int) =~= shown);
        assert(shown =~= Seq::new(
            values_of(outputs@).len(),
            |i: int| rendered(values_of(outputs@)[i], indent as nat),
        ));
    }
    let message = match error {
        Some(e) => {
            let mut m = "runtime error: ".to_owned();
            let print = debug_text(&e);
            m.append(print.as_str());
            Some(m)
        },
        None => None,
    };
    Evaluation { text, count: outputs.len(), error: message }
}

/// Every run of a filter that a text can be read as returns; of blank text nothing is run.
pub open spec fn can_run(v: JsonView, input: Seq<char>) -> bool {
    trimmed(input).len() > 0 ==> forall|f: qj::filter::Filter| #[trigger]
        reads_as(trimmed(input), f) ==> returns_on(f, v)
}

/// `e` is what is shown for a text on a document: for blank text the document, for a text that is no
/// filter the engine's message, for a filter what a run of it comes to.
pub open spec fn answers(v: JsonView, input: Seq<char>, indent: nat, e: EvaluationView) -> bool {
    let text = trimmed(input);
    if text.len() == 0 {
        e == whole(v, indent)
    } else if !is_filter(text) {
        exists|message: Seq<char>| #[trigger] rejected_with(text, message) && e == rejection(message)
    } else {
        exists|f: qj::filter::Filter, outputs: Seq<JsonView>, error: Option<JsonView>| #[trigger]
            can_yield(f, v, outputs, error) && reads_as(text, f) && e == outcome(
                outputs,
                error,
                indent,
            )
    }
}

impl Document {
    /// The document as it is shown when there is no filter.
    pub fn show(&self, indent: usize) -> (r: Evaluation)
        ensures
            r@ == whole(self@, indent as nat),
    {
        proof {
            use_type_invariant(&*self);
        }
        Evaluation {
            text: render_value(&self.value, indent),
            count: self.json.count(),
            error: None,
        }
    }

    /// Runs what was typed on the document. Nothing typed shows the document; a text that is no
    /// filter is rejected with the engine's message; a filter shows its outputs. The filter has to
    /// be one that returns, which no test can tell beforehand.
    pub fn evaluate(&self, input: &str, indent: usize) -> (r: Evaluation)
        requires
            can_run(self@, input@),
        ensures
            answers(self@, input@, indent as nat, r@),
    {
        proof {
            use_type_invariant(&*self);
        }
        let text = trim(input);
        if text.as_str().is_empty() {
            return self.show(indent);
        }
        match parse_filter(text.as_str()) {
            Ok(filter) => {
                let (outputs, error) = run_filter(&filter, &self.value);
                summarize(&outputs, error, indent)
            },
            Err(message) => reject(message),
        }
    }
}

/// The text to run when `newer` texts arrived behind `input` before it could be run: the last one.
pub open spec fn latest_of(input: Seq<char>, newer: Seq<Seq<char>>) -> Seq<char> {
    if newer.len() == 0 {
        input
    } else {
        newer.last()
    }
}

/// Of the texts that are waiting to be run, only the last one is.
pub fn latest(input: String, newer: Vec<String>) -> (r: String)
    ensures
        r@ == latest_of(input@, texts(newer@)),
{
    let mut rest = newer;
    match rest.pop() {
        Some(last) => last,
        None => input,
    }
}

impl Document {
    /// Runs the last of the texts that are waiting: `input`, and those that arrived behind it.
    pub fn evaluate_latest(&self, input: String, newer: Vec<String>, indent: usize) -> (r:
        Evaluation)
        requires
            can_run(self@, latest_of(input@, texts(newer@))),
        ensures
            answers(self@, latest_of(input@, texts(newer@)), indent as nat, r@),
    {
        let text = latest(input, newer);
        self.evaluate(text.as_str(), indent)
    }
}

} // verus!
