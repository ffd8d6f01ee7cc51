use iq::complete::{get_completions, jq_builtins, object_key_refs, object_keys, word_start_at};
use iq::json::Json;
use iq::path::resolve_path;
use iq::sort::sort_texts;
use std::borrow::Cow;

fn obj(fields: Vec<(&str, Json)>) -> Json {
    Json::Object(
        fields
            .into_iter()
            .map(|(k, v)| (k.to_string(), v))
            .collect(),
    )
}

fn num(n: i64) -> Json {
    Json::Int(n)
}

fn sample() -> Json {
    obj(vec![
        (
            "user",
            obj(vec![("name", Json::Text("a".to_string())), ("age", num(3))]),
        ),
        ("users", Json::Array(vec![obj(vec![("id", num(1))])])),
        ("zeta", Json::Null),
    ])
}

fn show(j: &Json) -> String {
    format!("{:?}", j)
}

#[test]
fn builtins_in_order() {
    let all = jq_builtins();
    assert_eq!(all.len(), 20);
    assert_eq!(all[0], "empty");
    assert_eq!(all[7], "add");
    assert_eq!(all[19], "false");
}

#[test]
fn keys_are_sorted_by_bytes() {
    let v = obj(vec![("b", num(1)), ("a", num(2)), ("B", num(3)), ("é", num(4)), ("ab", num(5))]);
    assert_eq!(object_keys(&v), vec!["B", "a", "ab", "b", "é"]);
    assert_eq!(object_key_refs(&v), vec!["b", "a", "B", "é", "ab"]);
}

#[test]
fn keys_of_an_array_are_those_of_its_first_object() {
    let v = Json::Array(vec![obj(vec![("y", num(1)), ("x", num(2))]), num(3)]);
    assert_eq!(object_keys(&v), vec!["x", "y"]);
    assert!(object_keys(&Json::Array(vec![])).is_empty());
    assert!(object_keys(&Json::Array(vec![num(1)])).is_empty());
    assert!(object_keys(&Json::Bool(true)).is_empty());
}

#[test]
fn sorting_keeps_duplicates() {
    let v: Vec<String> = ["d", "a", "c", "a", "b", ""].iter().map(|s| s.to_string()).collect();
    assert_eq!(sort_texts(v), vec!["", "a", "a", "b", "c", "d"]);
    assert!(sort_texts(Vec::new()).is_empty());
}

#[test]
fn paths_lead_to_fields() {
    let v = sample();
    assert_eq!(show(&resolve_path(&v, "user.age")), show(&num(3)));
    assert_eq!(show(&resolve_path(&v, ".user.age")), show(&num(3)));
    assert_eq!(show(&resolve_path(&v, "user..age")), show(&num(3)));
    assert_eq!(show(&resolve_path(&v, "")), show(&v));
    assert_eq!(show(&resolve_path(&v, "user.nothing")), "Null");
    assert_eq!(show(&resolve_path(&v, "zeta.deeper")), "Null");
}

#[test]
fn brackets_lead_to_the_first_element() {
    let v = sample();
    assert_eq!(show(&resolve_path(&v, "users[].id")), show(&num(1)));
    assert_eq!(show(&resolve_path(&v, "users.[].id")), show(&num(1)));
    assert_eq!(show(&resolve_path(&v, "users[][]")), "Null");
    assert_eq!(show(&resolve_path(&v, "user[]")), "Null");
    let nested = Json::Array(vec![Json::Array(vec![num(7)])]);
    assert_eq!(show(&resolve_path(&nested, "[][]")), show(&num(7)));
    // What follows the brackets of a segment other than more brackets is not read.
    assert_eq!(show(&resolve_path(&v, "users[]x[]")), show(&obj(vec![("id", num(1))])));
}

#[test]
fn a_field_of_an_inner_array_is_null() {
    let v = sample();
    assert_eq!(show(&resolve_path(&v, "users.id")), "Null");
}

#[test]
fn from_an_array_a_path_is_followed_in_the_first_element() {
    let v = Json::Array(vec![obj(vec![(
        "a",
        Json::Array(vec![obj(vec![("b", num(9))])]),
    )])]);
    assert_eq!(show(&resolve_path(&v, "a.b")), show(&num(9)));
    assert_eq!(show(&resolve_path(&v, "[].a[].b")), show(&num(9)));
    assert_eq!(show(&resolve_path(&Json::Array(vec![]), "a")), "Null");
}

#[test]
fn what_is_reached_is_borrowed() {
    let v = sample();
    match resolve_path(&v, "users[].id") {
        Cow::Borrowed(j) => assert!(matches!(j, Json::Int(1))),
        Cow::Owned(_) => panic!("cloned"),
    }
    assert!(matches!(resolve_path(&v, "zeta"), Cow::Borrowed(Json::Null)));
    assert!(matches!(resolve_path(&v, ""), Cow::Borrowed(Json::Object(_))));
    for path in ["nothing", "zeta.deeper", "user[]", "users[][]", "user.age.x"] {
        assert!(matches!(resolve_path(&v, path), Cow::Owned(Json::Null)));
    }
    let empty = Json::Array(vec![]);
    assert!(matches!(resolve_path(&empty, "[]"), Cow::Owned(Json::Null)));
    assert!(matches!(resolve_path(&empty, "a"), Cow::Owned(Json::Null)));
}

#[test]
fn a_path_is_followed_in_two_halves() {
    let v = sample();
    let whole = resolve_path(&v, "users[].id");
    let half = resolve_path(&v, "users[]");
    assert_eq!(show(&whole), show(&resolve_path(&half, "id")));
    // From an array on, arrays are looked through, so here the two halves lead further.
    let v = obj(vec![("a", Json::Array(vec![obj(vec![("b", num(1))])]))]);
    assert_eq!(show(&resolve_path(&v, "a.b")), "Null");
    assert_eq!(show(&resolve_path(&resolve_path(&v, "a"), "b")), show(&num(1)));
}

#[test]
fn the_first_of_two_equal_fields_counts() {
    let v = obj(vec![("a", num(1)), ("a", num(2))]);
    assert_eq!(show(&resolve_path(&v, "a")), show(&num(1)));
}

#[test]
fn nothing_typed_offers_fields_and_builtins() {
    let items = get_completions(&sample(), "");
    assert_eq!(&items[..4], &[".user", ".users", ".zeta", "empty"]);
    assert_eq!(items.len(), 23);
    let items = get_completions(&Json::Array(vec![]), "");
    assert_eq!(&items[..2], &[".[]", "empty"]);
    assert_eq!(items.len(), 21);
    assert_eq!(get_completions(&Json::Null, "").len(), 20);
}

#[test]
fn a_dot_offers_fields() {
    assert_eq!(get_completions(&sample(), "."), vec!["user", "users", "zeta"]);
    assert_eq!(get_completions(&Json::Array(vec![]), "."), vec!["[]"]);
    assert!(get_completions(&Json::Int(1), ".").is_empty());
}

#[test]
fn a_path_and_a_dot_offer_the_fields_there() {
    assert_eq!(get_completions(&sample(), ".user."), vec!["age", "name"]);
    assert_eq!(get_completions(&sample(), ".users[]."), vec!["id"]);
    assert_eq!(get_completions(&sample(), ".users."), vec!["id"]);
    // Behind a pipe the whole document counts.
    assert_eq!(get_completions(&sample(), ".user | ."), vec!["user", "users", "zeta"]);
}

#[test]
fn in_an_array_the_fields_of_its_first_element_are_offered() {
    let v = Json::Array(vec![obj(vec![("a", obj(vec![("y", num(1)), ("x", num(2))]))])]);
    assert_eq!(get_completions(&v, "."), vec!["[]"]);
    assert_eq!(get_completions(&v, ".a"), vec![".x", ".y"]);
    assert_eq!(get_completions(&v, ".a."), vec!["x", "y"]);
    assert_eq!(get_completions(&v, ".[].a."), vec!["x", "y"]);
    assert_eq!(get_completions(&v, ".[]"), vec![".a"]);
}

#[test]
fn a_name_offers_longer_names_in_document_order() {
    let v = obj(vec![("ab", num(1)), ("aa", num(2)), ("a", num(3)), ("b", num(4))]);
    assert_eq!(get_completions(&v, ".a"), vec!["ab", "aa"]);
    assert_eq!(get_completions(&v, "a"), vec!["ab", "aa"]);
    assert_eq!(get_completions(&sample(), ".user.a"), vec!["age"]);
}

#[test]
fn a_whole_name_offers_what_follows_it() {
    assert_eq!(get_completions(&sample(), ".users"), vec!["[]"]);
    let v = obj(vec![("k", obj(vec![("y", num(1)), ("x", num(2))]))]);
    assert_eq!(get_completions(&v, ".k"), vec![".x", ".y"]);
    assert_eq!(get_completions(&v, "k"), vec![".x", ".y"]);
    assert!(get_completions(&v, ".q").is_empty());
    let deep = obj(vec![("a", obj(vec![("b", Json::Array(vec![]))]))]);
    assert_eq!(get_completions(&deep, ".a.b"), vec!["[]"]);
}

#[test]
fn behind_a_pipe_a_name_is_cleaned_before_it_is_completed() {
    let v = obj(vec![("name", num(1)), ("na_me", num(2))]);
    assert_eq!(get_completions(&v, ". | .name)"), vec!["name"]);
    assert_eq!(get_completions(&v, ". | .na_)"), vec!["na_me"]);
    assert!(get_completions(&v, ". | .))").is_empty());
}

#[test]
fn words_begin_behind_a_separator() {
    assert_eq!(word_start_at("", 0), 0);
    assert_eq!(word_start_at("abc", 3), 0);
    assert_eq!(word_start_at(".abc", 4), 1);
    assert_eq!(word_start_at("map(ab", 6), 4);
    assert_eq!(word_start_at("a|b", 3), 2);
    assert_eq!(word_start_at("a b", 3), 2);
    assert_eq!(word_start_at(".é.xy", 5), 4);
    assert_eq!(word_start_at(".ab", 100), 1);
    assert_eq!(word_start_at(".ab.cd", 3), 1);
}
