use check_path::CheckPathPlugin;
use check_path::Paths;
use check_path::Query;
use check_path::Segment;
use check_path::Value;

fn text(s: &str) -> Value {
    Value::Text(s.to_string())
}

fn obj(entries: Vec<(&str, Value)>) -> Value {
    Value::Object(
        entries
            .into_iter()
            .map(|(k, v)| (k.to_string(), v))
            .collect(),
    )
}

fn with_id(id: &str, mut rest: Vec<(&str, Value)>) -> Value {
    let mut entries = vec![("id", text(id))];
    entries.append(&mut rest);
    obj(entries)
}

fn seg_text(s: &str) -> Segment {
    Segment::Text(s.to_string())
}

/// The literal example: `{ id: "root", items: [ { id: "a" }, { id: "b" } ] }`.
fn literal_snapshot() -> Value {
    with_id(
        "root",
        vec![(
            "items",
            Value::List(vec![with_id("a", vec![]), with_id("b", vec![])]),
        )],
    )
}

#[test]
fn literal_example_paths() {
    let mut plugin = CheckPathPlugin::new();
    plugin.ingest(literal_snapshot());
    assert_eq!(
        plugin.get_path("a", &Value::Absent),
        Some(vec![seg_text("items"), Segment::Numeric(0)])
    );
    assert_eq!(
        plugin.get_path("b", &Value::Absent),
        Some(vec![seg_text("items"), Segment::Numeric(1)])
    );
    assert_eq!(plugin.get_path("missing", &Value::Absent), None);
    assert_eq!(plugin.get_path("root", &Value::Absent), Some(vec![]));
}

#[test]
fn reingest_is_idempotent() {
    let mut plugin = CheckPathPlugin::new();
    plugin.ingest(literal_snapshot());
    let first_a = plugin.get_path("a", &Value::Absent);
    let first_b = plugin.get_path("b", &Value::Absent);
    let first_missing = plugin.get_path("missing", &Value::Absent);
    plugin.ingest(literal_snapshot());
    assert_eq!(plugin.get_path("a", &Value::Absent), first_a);
    assert_eq!(plugin.get_path("b", &Value::Absent), first_b);
    assert_eq!(plugin.get_path("missing", &Value::Absent), first_missing);
}

#[test]
fn rebuild_discards_previous_index() {
    let mut plugin = CheckPathPlugin::new();
    plugin.ingest(with_id("only_in_first", vec![]));
    assert_eq!(plugin.get_path("only_in_first", &Value::Absent), Some(vec![]));
    plugin.ingest(with_id("only_in_second", vec![]));
    assert_eq!(plugin.get_path("only_in_first", &Value::Absent), None);
    assert_eq!(plugin.get_path("only_in_second", &Value::Absent), Some(vec![]));
}

#[test]
fn duplicate_ids_resolve_to_last_visited() {
    // The walk pops a stack, so among sibling subtrees the one listed first
    // is visited last and its occurrence of a duplicated id wins.
    let mut plugin = CheckPathPlugin::new();
    plugin.ingest(obj(vec![
        ("first", with_id("dup", vec![])),
        ("second", with_id("dup", vec![])),
    ]));
    assert_eq!(
        plugin.get_path("dup", &Value::Absent),
        Some(vec![seg_text("first")])
    );
}

#[test]
fn duplicate_id_in_descendant_wins_over_ancestor() {
    // A descendant is visited after its ancestor, so its registration wins.
    let mut plugin = CheckPathPlugin::new();
    plugin.ingest(with_id("dup", vec![("child", with_id("dup", vec![]))]));
    assert_eq!(
        plugin.get_path("dup", &Value::Absent),
        Some(vec![seg_text("child")])
    );
}

/// A chain root -> wrap -> mid -> leaf where both `wrap` and `mid` carry the
/// id `"anc"`, so both satisfy a textual criterion `"anc"` and a list
/// criterion `["anc"]`.
fn tie_break_snapshot() -> Value {
    with_id(
        "root",
        vec![(
            "wrap",
            with_id(
                "anc",
                vec![(
                    "mid",
                    with_id("anc", vec![("leaf", with_id("leaf", vec![]))]),
                )],
            ),
        )],
    )
}

#[test]
fn tie_break_list_takes_farthest_match() {
    let mut plugin = CheckPathPlugin::new();
    plugin.ingest(tie_break_snapshot());
    let list_query = Value::List(vec![text("anc")]);
    assert_eq!(
        plugin.get_path("leaf", &list_query),
        Some(vec![seg_text("mid"), seg_text("leaf")])
    );
}

#[test]
fn tie_break_text_takes_nearest_match() {
    let mut plugin = CheckPathPlugin::new();
    plugin.ingest(tie_break_snapshot());
    assert_eq!(
        plugin.get_path("leaf", &text("anc")),
        Some(vec![seg_text("leaf")])
    );
}

#[test]
fn unmatched_query_yields_nothing() {
    let mut plugin = CheckPathPlugin::new();
    plugin.ingest(tie_break_snapshot());
    assert_eq!(plugin.get_path("leaf", &text("nowhere")), None);
}

#[test]
fn parent_prop_of_array_element_and_root() {
    let mut plugin = CheckPathPlugin::new();
    plugin.ingest(with_id(
        "p",
        vec![(
            "children",
            Value::List(vec![
                text("spacer"),
                text("spacer"),
                with_id("c", vec![]),
            ]),
        )],
    ));
    assert_eq!(plugin.get_parent_prop("c"), Some(Segment::Numeric(2)));
    assert_eq!(plugin.get_parent_prop("p"), None);
    assert_eq!(plugin.get_parent_prop("missing"), None);
}

#[test]
fn parent_context_checks_only_immediate_parent() {
    // leaf's immediate parent carries id "m"; the root carries id "g".
    let mut plugin = CheckPathPlugin::new();
    plugin.ingest(with_id(
        "g",
        vec![("mid", with_id("m", vec![("leaf", with_id("l", vec![]))]))],
    ));
    assert!(!plugin.has_parent_context("l", &text("g")));
    assert!(plugin.has_parent_context("l", &text("m")));
    // the wildcard accepts whatever parent there is
    assert!(plugin.has_parent_context("l", &Value::Absent));
    // the root has no parent at all
    assert!(!plugin.has_parent_context("g", &Value::Absent));
}

#[test]
fn get_parent_returns_the_parent_raw_value() {
    let mut plugin = CheckPathPlugin::new();
    let mid = with_id("m", vec![("leaf", with_id("l", vec![]))]);
    plugin.ingest(with_id("g", vec![("mid", mid.deep_clone())]));
    assert_eq!(plugin.get_parent("l", &Value::Absent), Some(mid));
    assert_eq!(plugin.get_parent("l", &text("zzz")), None);
    assert_eq!(plugin.get_parent("g", &Value::Absent), None);
}

#[test]
fn object_query_shallow_subset_matching() {
    let mut plugin = CheckPathPlugin::new();
    let parent = with_id(
        "p",
        vec![
            ("kind", text("red")),
            ("size", Value::Scalar("3".to_string())),
            ("leaf", with_id("l", vec![])),
        ],
    );
    plugin.ingest(parent);
    assert!(plugin.has_parent_context("l", &obj(vec![("kind", text("red"))])));
    assert!(plugin.has_parent_context(
        "l",
        &obj(vec![
            ("kind", text("red")),
            ("size", Value::Scalar("3".to_string())),
        ])
    ));
    assert!(!plugin.has_parent_context("l", &obj(vec![("kind", text("blue"))])));
    assert!(!plugin.has_parent_context("l", &obj(vec![("weight", text("red"))])));
}

#[test]
fn callable_and_scalar_criteria() {
    let mut plugin = CheckPathPlugin::new();
    plugin.ingest(with_id("p", vec![("leaf", with_id("l", vec![]))]));
    // a callable criterion never matches inside the library
    assert!(!plugin.has_parent_context("l", &Value::Callable));
    // an unrecognised scalar degrades to the wildcard
    assert!(plugin.has_parent_context("l", &Value::Scalar("7".to_string())));
}

#[test]
fn get_asset_returns_the_raw_node() {
    let mut plugin = CheckPathPlugin::new();
    let leaf = with_id("l", vec![("note", text("kept"))]);
    plugin.ingest(with_id("p", vec![("leaf", leaf.deep_clone())]));
    assert_eq!(plugin.get_asset("l"), Some(leaf));
    assert_eq!(plugin.get_asset("missing"), None);
}

#[test]
fn has_child_context_always_reports_false() {
    let plugin = CheckPathPlugin::new();
    assert!(!plugin.has_child_context());
}

#[test]
fn non_textual_id_is_not_indexed() {
    let mut plugin = CheckPathPlugin::new();
    plugin.ingest(obj(vec![
        ("id", Value::Scalar("5".to_string())),
        ("leaf", with_id("l", vec![])),
    ]));
    assert_eq!(plugin.get_path("5", &Value::Absent), None);
    assert_eq!(plugin.get_path("l", &Value::Absent), Some(vec![seg_text("leaf")]));
}

#[test]
fn plugin_reports_its_name() {
    let plugin = CheckPathPlugin::new();
    assert_eq!(plugin.name(), "check-path-plugin".to_string());
}

#[test]
fn registry_parse_and_get_directly() {
    let mut paths = Paths::new();
    assert_eq!(paths.get("a"), None);
    paths.parse(&literal_snapshot());
    assert_eq!(
        paths.get("b"),
        Some(vec![seg_text("items"), Segment::Numeric(1)])
    );
    assert_eq!(paths.get("nope"), None);
}

#[test]
fn query_classification_and_wildcard() {
    let q = Query::new(&Value::Absent);
    assert!(q.equals(&text("anything")));
    assert!(q.equals(&Value::Callable));
    let q = Query::new(&Value::Callable);
    assert!(!q.equals(&with_id("x", vec![])));
    let q = Query::new(&text("x"));
    assert!(q.equals(&with_id("x", vec![])));
    assert!(!q.equals(&with_id("y", vec![])));
    let q = Query::new(&Value::List(vec![text("x"), text("y")]));
    assert!(q.equals(&with_id("y", vec![])));
    assert!(!q.equals(&with_id("z", vec![])));
}
