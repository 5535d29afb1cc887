use quantumseal::cbom::{Component, CryptoBom, Occurrence};
use quantumseal::diff::{
    snapshots_from_bom, snapshots_from_json, ChangedComponent, ComponentSnapshot, Diff,
};
use quantumseal::json::{Json, JsonObject};

fn snap(id: &str, name: &str, priority: i64, occ: i64, files: i64) -> ComponentSnapshot {
    ComponentSnapshot {
        id: id.to_string(),
        name: name.to_string(),
        priority,
        occurrence_count: occ,
        file_count: files,
    }
}

fn changed(id: &str, name: &str, base: ComponentSnapshot, cur: ComponentSnapshot) -> ChangedComponent {
    ChangedComponent { id: id.to_string(), name: name.to_string(), baseline: base, current: cur }
}

fn obj(members: Vec<(&str, Json)>) -> Json {
    let mut o = JsonObject::new();
    for (k, v) in members {
        o.insert(k.to_string(), v);
    }
    Json::Object(o)
}

fn text(s: &str) -> Json {
    Json::String(s.to_string())
}

fn keys(j: &Json) -> Vec<String> {
    match j {
        Json::Object(o) => o.members().iter().map(|(k, _)| k.clone()).collect(),
        _ => panic!("not an object"),
    }
}

fn member<'a>(j: &'a Json, key: &str) -> &'a Json {
    match j {
        Json::Object(o) => o.get(key).unwrap(),
        _ => panic!("not an object"),
    }
}

fn rule() -> String {
    "=".repeat(70)
}

#[test]
fn empty_diff_is_empty_and_not_a_regression() {
    let d = Diff::default();
    assert!(d.is_empty());
    assert!(!d.is_regression());
}

#[test]
fn unchanged_ids_alone_leave_the_diff_empty() {
    let d = Diff { unchanged: vec!["aes".to_string()], ..Diff::default() };
    assert!(d.is_empty());
    assert!(!d.is_regression());
}

#[test]
fn added_component_is_a_regression() {
    let d = Diff { added: vec![snap("mlkem", "ML-KEM (Kyber)", 5, 1, 1)], ..Diff::default() };
    assert!(!d.is_empty());
    assert!(d.is_regression());
}

#[test]
fn removed_component_is_not_a_regression() {
    let d = Diff { removed: vec![snap("rsa", "RSA", 80, 6, 2)], ..Diff::default() };
    assert!(!d.is_empty());
    assert!(!d.is_regression());
}

#[test]
fn increased_occurrences_are_a_regression() {
    let d = Diff {
        changed: vec![
            changed("md5", "MD5", snap("md5", "MD5", 97, 3, 2), snap("md5", "MD5", 90, 1, 1)),
            changed("rsa", "RSA", snap("rsa", "RSA", 70, 1, 1), snap("rsa", "RSA", 73, 2, 1)),
        ],
        ..Diff::default()
    };
    assert!(d.is_regression());
}

#[test]
fn decreased_occurrences_are_not_a_regression() {
    let d = Diff {
        changed: vec![changed("rsa", "RSA", snap("rsa", "RSA", 80, 6, 2), snap("rsa", "RSA", 73, 2, 1))],
        ..Diff::default()
    };
    assert!(!d.is_empty());
    assert!(!d.is_regression());
}

#[test]
fn text_of_empty_diff() {
    let d = Diff::default();
    let expected = format!(
        "quantumseal — CryptoBOM baseline comparison\n{}\nNo changes: current inventory matches the baseline.\n",
        rule()
    );
    assert_eq!(d.to_text(), expected);
}

#[test]
fn text_of_full_diff() {
    let d = Diff {
        added: vec![snap("mlkem", "ML-KEM (Kyber)", 5, 1, 1)],
        removed: vec![snap("rsa", "RSA", 80, 6, 2), snap("md5", "MD5", 97, 3, 2)],
        changed: vec![
            changed("aes", "AES", snap("aes", "AES", 28, 2, 1), snap("aes", "AES", 25, 1, 1)),
            changed("tls", "TLS / SSL", snap("tls", "TLS / SSL", 70, 1, 1), snap("tls", "TLS / SSL", 77, 12, 1)),
            changed("jwt", "JWT / JOSE", snap("jwt", "JWT / JOSE", 70, -3, 1), snap("jwt", "JWT / JOSE", -5, -3, 1)),
        ],
        unchanged: vec!["sha2".to_string()],
    };
    let expected = format!(
        "quantumseal — CryptoBOM baseline comparison\n{r}\n\
         \nADDED (1):\n  + ML-KEM (Kyber) (mlkem)  priority=5 occurrences=1\n\
         \nREMOVED (2):\n  - RSA (rsa)  was priority=80 occurrences=6\n  - MD5 (md5)  was priority=97 occurrences=3\n\
         \nCHANGED (3):\n  ~ AES (aes) ▼ occurrences 2→1 (-1), priority 28→25\n  ~ TLS / SSL (tls) ▲ occurrences 1→12 (+11), priority 70→77\n  ~ JWT / JOSE (jwt) ▼ occurrences -3→-3 (+0), priority 70→-5\n\
         \n{r}\nRegression (new or increased crypto exposure): YES\n",
        r = rule()
    );
    assert_eq!(d.to_text(), expected);
}

#[test]
fn text_reports_no_regression_for_removals_only() {
    let d = Diff { removed: vec![snap("rc4", "RC4", 90, 1, 1)], ..Diff::default() };
    let expected = format!(
        "quantumseal — CryptoBOM baseline comparison\n{r}\n\
         \nREMOVED (1):\n  - RC4 (rc4)  was priority=90 occurrences=1\n\
         \n{r}\nRegression (new or increased crypto exposure): no\n",
        r = rule()
    );
    assert_eq!(d.to_text(), expected);
}

#[test]
fn text_formats_extreme_integers() {
    let d = Diff { added: vec![snap("x", "X", i64::MIN, i64::MAX, 0)], ..Diff::default() };
    let t = d.to_text();
    assert!(t.contains("  + X (x)  priority=-9223372036854775808 occurrences=9223372036854775807\n"));
}

#[test]
fn json_report_shape() {
    let d = Diff {
        added: vec![snap("mlkem", "ML-KEM (Kyber)", 5, 1, 1)],
        removed: vec![snap("rsa", "RSA", 80, 6, 2)],
        changed: vec![changed("aes", "AES", snap("aes", "AES", 28, 2, 1), snap("aes", "AES", 25, 1, 1))],
        unchanged: vec!["sha2".to_string(), "sha3".to_string()],
    };
    let j = d.to_json();
    assert_eq!(keys(&j), vec!["added", "changed", "kind", "regression", "removed", "unchanged"]);
    assert!(matches!(member(&j, "kind"), Json::String(s) if s == "quantumseal-diff/1"));
    assert!(matches!(member(&j, "regression"), Json::Bool(true)));
    match member(&j, "added") {
        Json::Array(a) => {
            assert_eq!(a.len(), 1);
            assert_eq!(keys(&a[0]), vec!["file_count", "id", "name", "occurrence_count", "priority"]);
            assert!(matches!(member(&a[0], "id"), Json::String(s) if s == "mlkem"));
            assert!(matches!(member(&a[0], "name"), Json::String(s) if s == "ML-KEM (Kyber)"));
            assert!(matches!(member(&a[0], "priority"), Json::Number(5)));
            assert!(matches!(member(&a[0], "occurrence_count"), Json::Number(1)));
            assert!(matches!(member(&a[0], "file_count"), Json::Number(1)));
        }
        _ => panic!("added is not an array"),
    }
    match member(&j, "changed") {
        Json::Array(a) => {
            assert_eq!(a.len(), 1);
            assert_eq!(keys(&a[0]), vec!["baseline", "current", "id", "name", "occurrence_delta"]);
            assert!(matches!(member(&a[0], "occurrence_delta"), Json::Number(-1)));
            assert!(matches!(member(member(&a[0], "baseline"), "priority"), Json::Number(28)));
            assert!(matches!(member(member(&a[0], "current"), "priority"), Json::Number(25)));
        }
        _ => panic!("changed is not an array"),
    }
    match member(&j, "unchanged") {
        Json::Array(a) => {
            assert_eq!(a.len(), 2);
            assert!(matches!(&a[0], Json::String(s) if s == "sha2"));
            assert!(matches!(&a[1], Json::String(s) if s == "sha3"));
        }
        _ => panic!("unchanged is not an array"),
    }
}

#[test]
fn json_report_of_empty_diff() {
    let j = Diff::default().to_json();
    assert!(matches!(member(&j, "regression"), Json::Bool(false)));
    assert!(matches!(member(&j, "added"), Json::Array(a) if a.is_empty()));
    assert!(matches!(member(&j, "removed"), Json::Array(a) if a.is_empty()));
}

fn component(id: &str, name: Option<&str>, priority: Json, occ: Json, files: Json) -> Json {
    let mut m = vec![("id", text(id))];
    if let Some(n) = name {
        m.push(("name", text(n)));
    }
    m.push(("priority", priority));
    m.push(("occurrence_count", occ));
    m.push(("file_count", files));
    obj(m)
}

#[test]
fn snapshots_from_json_reads_components_sorted_by_id() {
    let doc = obj(vec![
        ("tool", text("quantumseal")),
        (
            "components",
            Json::Array(vec![
                component("rsa", Some("RSA"), Json::Number(80), Json::Number(6), Json::Number(2)),
                component("md5", Some("MD5"), Json::Number(97), Json::Number(3), Json::Number(2)),
                component("aes", Some("AES"), Json::Number(28), Json::Number(2), Json::Number(1)),
            ]),
        ),
    ]);
    let snaps = snapshots_from_json(&doc).unwrap();
    assert_eq!(
        snaps,
        vec![snap("aes", "AES", 28, 2, 1), snap("md5", "MD5", 97, 3, 2), snap("rsa", "RSA", 80, 6, 2)]
    );
}

#[test]
fn snapshots_from_json_defaults_missing_fields() {
    let doc = obj(vec![(
        "components",
        Json::Array(vec![
            obj(vec![("id", text("ecc"))]),
            component("sha1", None, Json::OtherNumber, text("2"), Json::Null),
            obj(vec![("id", text("dh")), ("name", Json::Bool(true)), ("priority", Json::Number(-4))]),
        ]),
    )]);
    let snaps = snapshots_from_json(&doc).unwrap();
    assert_eq!(
        snaps,
        vec![snap("dh", "dh", -4, 0, 0), snap("ecc", "ecc", 0, 0, 0), snap("sha1", "sha1", 0, 0, 0)]
    );
}

#[test]
fn snapshots_from_json_keeps_the_last_duplicate() {
    let doc = obj(vec![(
        "components",
        Json::Array(vec![
            component("rsa", Some("RSA"), Json::Number(80), Json::Number(6), Json::Number(2)),
            component("rsa", Some("RSA again"), Json::Number(70), Json::Number(1), Json::Number(1)),
        ]),
    )]);
    let snaps = snapshots_from_json(&doc).unwrap();
    assert_eq!(snaps, vec![snap("rsa", "RSA again", 70, 1, 1)]);
}

#[test]
fn snapshots_from_json_orders_ids_by_code_point() {
    let doc = obj(vec![(
        "components",
        Json::Array(vec![
            obj(vec![("id", text("b"))]),
            obj(vec![("id", text("ab"))]),
            obj(vec![("id", text("a"))]),
            obj(vec![("id", text("B"))]),
            obj(vec![("id", text("é"))]),
        ]),
    )]);
    let ids: Vec<String> = snapshots_from_json(&doc).unwrap().into_iter().map(|s| s.id).collect();
    assert_eq!(ids, vec!["B", "a", "ab", "b", "é"]);
}

#[test]
fn snapshots_from_json_of_empty_components() {
    let doc = obj(vec![("components", Json::Array(vec![]))]);
    assert_eq!(snapshots_from_json(&doc).unwrap(), vec![]);
}

#[test]
fn snapshots_from_json_root_not_object() {
    assert_eq!(
        snapshots_from_json(&Json::Array(vec![])).unwrap_err(),
        "baseline root is not an object"
    );
}

#[test]
fn snapshots_from_json_missing_components() {
    let doc = obj(vec![("tool", text("quantumseal"))]);
    assert_eq!(snapshots_from_json(&doc).unwrap_err(), "baseline has no 'components' array");
    let doc = obj(vec![("components", obj(vec![]))]);
    assert_eq!(snapshots_from_json(&doc).unwrap_err(), "baseline has no 'components' array");
}

#[test]
fn snapshots_from_json_component_not_object() {
    let doc = obj(vec![(
        "components",
        Json::Array(vec![obj(vec![("id", text("rsa"))]), Json::Number(3), obj(vec![])]),
    )]);
    assert_eq!(snapshots_from_json(&doc).unwrap_err(), "component is not an object");
}

#[test]
fn snapshots_from_json_component_missing_id() {
    let doc = obj(vec![(
        "components",
        Json::Array(vec![obj(vec![("name", text("RSA"))]), Json::Null]),
    )]);
    assert_eq!(snapshots_from_json(&doc).unwrap_err(), "component missing 'id'");
    let doc = obj(vec![("components", Json::Array(vec![obj(vec![("id", Json::Number(1))])]))]);
    assert_eq!(snapshots_from_json(&doc).unwrap_err(), "component missing 'id'");
}

#[test]
fn report_snapshots_read_back() {
    let added = vec![snap("mlkem", "ML-KEM (Kyber)", 5, 1, 1), snap("aes", "AES", 28, -2, 7)];
    let d = Diff { added: added.clone(), ..Diff::default() };
    let j = d.to_json();
    let doc = obj(vec![(
        "components",
        match member(&j, "added") {
            Json::Array(a) => Json::Array(
                a.iter()
                    .map(|c| match c {
                        Json::Object(o) => {
                            let mut copy = JsonObject::new();
                            for (k, v) in o.members() {
                                let v = match v {
                                    Json::String(s) => Json::String(s.clone()),
                                    Json::Number(n) => Json::Number(*n),
                                    _ => panic!("unexpected member"),
                                };
                                copy.insert(k.clone(), v);
                            }
                            copy.insert("source".to_string(), Json::Bool(true));
                            Json::Object(copy)
                        }
                        _ => panic!("not an object"),
                    })
                    .collect(),
            ),
            _ => panic!("not an array"),
        },
    )]);
    let snaps = snapshots_from_json(&doc).unwrap();
    assert_eq!(snaps, vec![added[1].clone(), added[0].clone()]);
}

fn bom_component(id: &str, name: &str, priority: u32, occurrences: usize, file_count: usize) -> Component {
    Component {
        rule_id: id.to_string(),
        name: name.to_string(),
        priority,
        occurrences: (0..occurrences)
            .map(|i| Occurrence {
                file: "src/crypto.rs".to_string(),
                line: i + 1,
                excerpt: String::new(),
                needle: id.to_string(),
            })
            .collect(),
        file_count,
    }
}

#[test]
fn snapshots_from_bom_counts_and_sorts() {
    let bom = CryptoBom {
        components: vec![
            bom_component("md5", "MD5", 97, 3, 2),
            bom_component("3des", "3DES / DES", 90, 1, 1),
            bom_component("rsa", "RSA", 80, 6, 2),
        ],
    };
    assert_eq!(
        snapshots_from_bom(&bom),
        vec![snap("3des", "3DES / DES", 90, 1, 1), snap("md5", "MD5", 97, 3, 2), snap("rsa", "RSA", 80, 6, 2)]
    );
}

#[test]
fn snapshots_from_bom_keeps_the_last_duplicate_and_handles_empty() {
    let bom = CryptoBom {
        components: vec![bom_component("rsa", "RSA", 80, 6, 2), bom_component("rsa", "RSA", 70, 1, 1)],
    };
    assert_eq!(snapshots_from_bom(&bom), vec![snap("rsa", "RSA", 70, 1, 1)]);
    assert_eq!(snapshots_from_bom(&CryptoBom { components: vec![] }), vec![]);
}

#[test]
fn snapshots_from_json_ignores_other_members() {
    let plain = obj(vec![(
        "components",
        Json::Array(vec![component("rsa", Some("RSA"), Json::Number(80), Json::Number(6), Json::Number(2))]),
    )]);
    let mut extra_component = JsonObject::new();
    extra_component.insert("category".to_string(), text("public_key"));
    extra_component.insert("id".to_string(), text("rsa"));
    extra_component.insert("name".to_string(), text("RSA"));
    extra_component.insert("priority".to_string(), Json::Number(80));
    extra_component.insert("occurrence_count".to_string(), Json::Number(6));
    extra_component.insert("file_count".to_string(), Json::Number(2));
    extra_component.insert("occurrences".to_string(), Json::Array(vec![Json::Null]));
    let noisy = obj(vec![
        ("analysis_only", Json::Bool(true)),
        ("components", Json::Array(vec![Json::Object(extra_component)])),
        ("schema", text("quantumseal-cbom/1")),
    ]);
    assert_eq!(snapshots_from_json(&plain).unwrap(), snapshots_from_json(&noisy).unwrap());
}

#[test]
fn text_report_ignores_unchanged_ids() {
    let a = Diff { removed: vec![snap("rc4", "RC4", 90, 1, 1)], ..Diff::default() };
    let b = Diff {
        removed: vec![snap("rc4", "RC4", 90, 1, 1)],
        unchanged: vec!["aes".to_string(), "sha2".to_string()],
        ..Diff::default()
    };
    assert_eq!(a.to_text(), b.to_text());
}
