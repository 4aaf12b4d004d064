use floe_web::guest::{is_guest_key, project, Json};

fn text(s: &str) -> Json {
    Json::Text(s.to_string())
}

fn object(fields: Vec<(&str, Json)>) -> Json {
    Json::Object(fields.into_iter().map(|(k, v)| (k.to_string(), v)).collect())
}

fn render(j: &Json) -> String {
    match j {
        Json::Null => "null".into(),
        Json::Bool(b) => b.to_string(),
        Json::Number(n) => n.clone(),
        Json::Text(t) => format!("{t:?}"),
        Json::Array(a) => format!("[{}]", a.iter().map(render).collect::<Vec<_>>().join(",")),
        Json::Object(fs) => format!(
            "{{{}}}",
            fs.iter()
                .map(|(k, v)| format!("{k:?}:{}", render(v)))
                .collect::<Vec<_>>()
                .join(",")
        ),
    }
}

#[test]
fn projection_never_inherits_owner_metadata_or_nested_notes() {
    let source = object(vec![
        ("name", text("WIDTH")),
        ("description", text("width rule")),
        ("svrf", object(vec![("source", text("private"))])),
        ("assignee", text("hidden")),
        (
            "rows",
            Json::Array(vec![object(vec![
                ("local", text("9007199254740994")),
                ("bbox_um", Json::Array(vec![text("0"), text("1"), text("2"), text("3")])),
                ("status", Json::Number("1".into())),
                ("note", text("secret")),
                ("thread", object(vec![("body", text("hidden"))])),
            ])]),
        ),
        ("unknown", text("hidden")),
    ]);
    let expected = object(vec![
        ("name", text("WIDTH")),
        ("description", text("width rule")),
        (
            "rows",
            Json::Array(vec![object(vec![
                ("local", text("9007199254740994")),
                ("bbox_um", Json::Array(vec![text("0"), text("1"), text("2"), text("3")])),
                ("status", Json::Number("1".into())),
            ])]),
        ),
    ]);
    assert_eq!(render(&project(&source)), render(&expected));
}

#[test]
fn guest_keys_are_an_explicit_vocabulary() {
    for k in ["rows", "next", "width_um", "selection_rev", "points_dbu"] {
        assert!(is_guest_key(k), "{k}");
    }
    for k in ["note", "assignee", "svrf", "Rows", "row", ""] {
        assert!(!is_guest_key(k), "{k}");
    }
    let nested = Json::Array(vec![object(vec![("note", text("x")), ("hit", Json::Bool(true))]), Json::Null]);
    assert_eq!(render(&project(&nested)), "[{\"hit\":true},null]");
}
