//! The models hold what the values hold.

use crate::ansi::{line_views, span_views, Line, Span};
use crate::app::{result_view, Action, App, EvalResult, Popup, Request};
use crate::complete::strs;
use crate::engine::{maybe_value, value_of, values_of, Evaluation};
use crate::json::{Json, JsonView};
use crate::screen::Pane;
use crate::text::texts;
use vstd::prelude::*;

verus! {

/// Plain data holds its contents, in order.
pub proof fn law_json(j: Json)
    ensures
        j is Null <==> j@ is Null,
        j matches Json::Bool(b) ==> j@ == JsonView::Bool(b),
        j matches Json::Int(n) ==> j@ == JsonView::Int(n),
        j matches Json::Double(bits, None) ==> j@ == JsonView::Double(bits, None),
        j matches Json::Double(bits, Some(raw)) ==> j@ == JsonView::Double(bits, Some(raw@)),
        j matches Json::Text(t) ==> j@ == JsonView::Text(t@),
        j matches Json::Array(a) ==> {
            &&& j@ is Array
            &&& j@->Array_0.len() == a@.len()
            &&& forall|i: int| 0 <= i < a@.len() ==> #[trigger] j@->Array_0[i] == a@[i]@
        },
        j matches Json::Object(o) ==> {
            &&& j@ is Object
            &&& j@->Object_0.len() == o@.len()
            &&& forall|i: int|
                0 <= i < o@.len() ==> (#[trigger] j@->Object_0[i]).0 == o@[i].0@ && j@->Object_0[i].1
                    == o@[i].1@
        },
{
}

/// Lists hold each of their items, in order.
pub proof fn law_lists(
    a: Seq<String>,
    b: Seq<&str>,
    c: Seq<qj::value::Value>,
    d: Seq<Line>,
    e: Seq<Span>,
    i: int,
)
    ensures
        texts(a).len() == a.len(),
        0 <= i < a.len() ==> texts(a)[i] == a[i]@,
        strs(b).len() == b.len(),
        0 <= i < b.len() ==> strs(b)[i] == b[i]@,
        values_of(c).len() == c.len(),
        0 <= i < c.len() ==> values_of(c)[i] == value_of(c[i]),
        line_views(d).len() == d.len(),
        0 <= i < d.len() ==> line_views(d)[i] == span_views(d[i].spans@),
        span_views(e).len() == e.len(),
        0 <= i < e.len() ==> span_views(e)[i] == (e[i].text@, e[i].style),
{
}

/// What may be missing is what it is, or missing.
pub proof fn law_maybe(v: Option<qj::value::Value>)
    ensures
        v is None <==> maybe_value(v) is None,
        v matches Some(x) ==> maybe_value(v) == Some(value_of(x)),
{
}

/// The model of a session has all that the session has.
pub proof fn law_session(app: App)
    ensures
        app@.raw_preview == app.raw_preview@,
        app@.json == app.json_value@,
        app@.filename == app.filename@,
        app@.indent_size == app.indent_size,
        app@.result_count == app.result_count,
        app@.eval_duration == app.eval_duration,
        app@.input == app.input@,
        app@.cursor == app.cursor,
        app@.result_text == app.result_text@,
        app@.line_offsets == app.line_offsets@,
        app.error is None <==> app@.error is None,
        app.error matches Some(e) ==> app@.error == Some(e@),
        app@.scroll == app.scroll,
        app@.max_scroll == app.max_scroll,
        app@.history == texts(app.history@),
        app@.history_idx == app.history_idx,
        app.popup is None <==> app@.popup is None,
        app.popup matches Some(p) ==> app@.popup == Some(p@),
        app@.show_debug == app.show_debug,
        app@.running == app.running,
{
}

/// So have the models of its parts, of what it asks for, of what is shown and of what is drawn.
pub proof fn law_parts(p: Popup, a: Action, e: Evaluation, r: EvalResult, pane: Pane)
    ensures
        p@.items == texts(p.items@),
        p@.selected == p.selected,
        p@.scroll_off == p.scroll_off,
        a is Idle ==> a@ == Request::Idle,
        a matches Action::Evaluate(t) ==> a@ == Request::Evaluate(t@),
        a matches Action::Remember(t) ==> a@ == Request::Remember(t@),
        e@.text == e.text@,
        e@.count == e.count,
        e.error is None <==> e@.error is None,
        e.error matches Some(m) ==> e@.error == Some(m@),
        result_view(r).text == r.text@,
        result_view(r).count == r.count,
        r.error is None <==> result_view(r).error is None,
        r.error matches Some(m) ==> result_view(r).error == Some(m@),
        pane@.area == pane.area,
        pane@.lines == line_views(pane.lines@),
        pane@.borders == pane.borders,
        pane@.title == pane.title@,
        pane@.border == pane.border,
{
}

} // verus!
