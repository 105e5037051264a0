use unnest::internal_events::{KeyValueMultipleSplitResults, KeyValueParserError};
use unnest::kind::{ArrayColl, Depth, Kind, ObjectColl};
use unnest::path::Path;
use unnest::unnest::{invert_array_at_path, Compiler, Context, TypeDef, UnnestFn};
use unnest::value::Value;

fn k_base() -> Kind {
    Kind {
        any: false,
        bytes: false,
        integer: false,
        float: false,
        boolean: false,
        timestamp: false,
        null: false,
        array: None,
        object: None,
    }
}

fn k_bytes() -> Kind {
    Kind { bytes: true, ..k_base() }
}

fn k_unknown() -> Kind {
    Kind { any: true, ..k_base() }
}

fn k_obj(entries: Vec<(&str, Kind)>) -> Kind {
    k_obj_u(None, entries)
}

fn k_obj_u(unknown: Option<Kind>, entries: Vec<(&str, Kind)>) -> Kind {
    let known = entries.into_iter().map(|(n, k)| (n.to_string(), k)).collect();
    Kind {
        object: Some(ObjectColl { known, unknown: unknown.map(Box::new) }),
        ..k_base()
    }
}

/// An array with one fallback element kind and no known indices.
fn k_arr(elem: Kind) -> Kind {
    Kind {
        array: Some(ArrayColl { known: Vec::new(), unknown: Some(Box::new(elem)) }),
        ..k_base()
    }
}

/// An array with known indices and an optional fallback.
fn k_arr_known(unknown: Option<Kind>, entries: Vec<(usize, Kind)>) -> Kind {
    Kind {
        array: Some(ArrayColl { known: entries, unknown: unknown.map(Box::new) }),
        ..k_base()
    }
}

fn td(kind: Kind) -> TypeDef {
    TypeDef { kind, fallible: false }
}

fn p_fields(names: &[&str]) -> Path {
    let mut p = Path::root();
    for n in names {
        p = p.then_field(n.to_string());
    }
    p
}

fn v_str(s: &str) -> Value {
    Value::Bytes(s.as_bytes().to_vec())
}

fn v_obj(entries: Vec<(&str, Value)>) -> Value {
    Value::Object(entries.into_iter().map(|(n, v)| (n.to_string(), v)).collect())
}

#[test]
fn type_def() {
    struct TestCase {
        old: TypeDef,
        path: Path,
        new: TypeDef,
    }

    let noog_nork = || k_obj(vec![("noog", k_bytes()), ("nork", k_bytes())]);

    let cases = vec![
        // Simple case
        TestCase {
            old: td(k_obj(vec![("nonk", k_arr(noog_nork()))])),
            path: p_fields(&["nonk"]),
            new: td(k_arr(k_obj(vec![("nonk", noog_nork())]))),
        },
        // Provided example
        TestCase {
            old: td(k_obj(vec![(
                "nonk",
                k_obj(vec![("shnoog", k_arr(k_obj(vec![("noog", k_bytes())])))]),
            )])),
            path: p_fields(&["nonk", "shnoog"]),
            new: td(k_arr(k_obj(vec![(
                "nonk",
                k_obj(vec![("shnoog", k_obj(vec![("noog", k_bytes())]))]),
            )]))),
        },
        // Same field in different branches
        TestCase {
            old: td(k_obj(vec![
                (
                    "nonk",
                    k_obj(vec![("shnoog", k_arr(k_obj(vec![("noog", k_bytes())])))]),
                ),
                (
                    "nink",
                    k_obj(vec![("shnoog", k_arr(k_obj(vec![("noog", k_bytes())])))]),
                ),
            ])),
            path: p_fields(&["nonk", "shnoog"]),
            new: td(k_arr(k_obj(vec![
                (
                    "nonk",
                    k_obj(vec![("shnoog", k_obj(vec![("noog", k_bytes())]))]),
                ),
                (
                    "nink",
                    k_obj(vec![("shnoog", k_arr(k_obj(vec![("noog", k_bytes())])))]),
                ),
            ]))),
        },
        // Indexed any
        TestCase {
            old: td(k_obj(vec![(
                "nonk",
                k_arr(k_obj(vec![("noog", k_arr(k_bytes())), ("nork", k_bytes())])),
            )])),
            path: Path::root()
                .then_field("nonk".to_string())
                .then_index(0)
                .then_field("noog".to_string()),
            new: td(k_arr(k_obj(vec![(
                "nonk",
                k_arr_known(
                    Some(k_obj(vec![("noog", k_arr(k_bytes())), ("nork", k_bytes())])),
                    // the index is added on top of the fallback entry
                    vec![(0, k_obj(vec![("noog", k_bytes())]))],
                ),
            )]))),
        },
        // Indexed specific
        TestCase {
            old: td(k_obj(vec![(
                "nonk",
                k_arr_known(
                    None,
                    vec![(
                        0,
                        k_obj(vec![("noog", k_arr(k_bytes())), ("nork", k_bytes())]),
                    )],
                ),
            )])),
            path: Path::root()
                .then_field("nonk".to_string())
                .then_index(0)
                .then_field("noog".to_string()),
            new: td(k_arr(k_obj(vec![(
                "nonk",
                k_arr_known(
                    None,
                    vec![(0, k_obj(vec![("noog", k_bytes()), ("nork", k_bytes())]))],
                ),
            )]))),
        },
        // More nested
        TestCase {
            old: td(k_obj(vec![(
                "nonk",
                k_obj(vec![("shnoog", k_arr(noog_nork()))]),
            )])),
            path: p_fields(&["nonk", "shnoog"]),
            new: td(k_arr(k_obj(vec![(
                "nonk",
                k_obj(vec![("shnoog", noog_nork())]),
            )]))),
        },
        // Coalesce with known path second
        TestCase {
            old: td(k_obj_u(
                Some(k_bytes()),
                vec![("nonk", k_obj(vec![("shnoog", k_arr(noog_nork()))]))],
            )),
            path: Path::root()
                .then_coalesce(vec!["nork".to_string(), "nonk".to_string()])
                .then_field("shnoog".to_string()),
            new: td(k_arr(k_obj_u(
                Some(k_bytes()),
                vec![
                    ("nonk", k_obj(vec![("shnoog", noog_nork())])),
                    ("nork", k_obj(vec![("shnoog", noog_nork())])),
                ],
            ))),
        },
        // Non existent: the types we know are moved into the returned array.
        TestCase {
            old: td(k_obj(vec![("nonk", k_bytes())])),
            path: p_fields(&["norg"]),
            new: td(k_arr(k_obj(vec![("nonk", k_bytes()), ("norg", k_unknown())]))),
        },
    ];

    for case in cases {
        let new = invert_array_at_path(&case.old, &case.path);
        assert_eq!(case.new, new);
    }
}

#[test]
fn unnest() {
    let input = || {
        v_obj(vec![
            ("hostname", v_str("localhost")),
            (
                "events",
                Value::Array(vec![
                    v_obj(vec![("message", v_str("hello"))]),
                    v_obj(vec![("message", v_str("world"))]),
                ]),
            ),
        ])
    };

    let cases = vec![
        (
            input(),
            Ok(Value::Array(vec![
                v_obj(vec![
                    ("hostname", v_str("localhost")),
                    ("events", v_obj(vec![("message", v_str("hello"))])),
                ]),
                v_obj(vec![
                    ("hostname", v_str("localhost")),
                    ("events", v_obj(vec![("message", v_str("world"))])),
                ]),
            ])),
            UnnestFn::new(p_fields(&["events"])),
            td(k_arr(k_obj(vec![
                ("hostname", k_bytes()),
                ("events", k_obj(vec![("message", k_bytes())])),
            ]))),
        ),
        (
            input(),
            Err("expected array, got null".to_owned()),
            UnnestFn::new(p_fields(&["unknown"])),
            // the missing field is folded in as a fresh trailing entry
            td(k_arr(k_obj(vec![
                ("hostname", k_bytes()),
                ("events", k_arr(k_obj(vec![("message", k_bytes())]))),
                ("unknown", k_unknown()),
            ]))),
        ),
        (
            input(),
            Err("expected array, got string".to_owned()),
            UnnestFn::new(p_fields(&["hostname"])),
            td(k_arr(k_obj(vec![
                ("hostname", k_unknown()),
                ("events", k_arr(k_obj(vec![("message", k_bytes())]))),
            ]))),
        ),
    ];

    let compiler = Compiler {
        target_kind: Some(td(k_obj(vec![
            ("hostname", k_bytes()),
            ("events", k_arr(k_obj(vec![("message", k_bytes())]))),
        ]))),
        variable_kinds: Vec::new(),
    };

    for (object, expected, func, expected_typedef) in cases {
        let ctx = Context { external: object, variables: Vec::new() };

        let got_typedef = func.type_def(&compiler);

        let got = func.resolve(&ctx).map_err(|e| e.message());

        assert_eq!(got, expected);
        assert_eq!(got_typedef, expected_typedef);
    }
}

#[test]
fn empty_array_unnest_yields_no_events() {
    let root = v_obj(vec![("items", Value::Array(Vec::new()))]);
    let func = UnnestFn::new(p_fields(&["items"]));
    let ctx = Context { external: root, variables: Vec::new() };
    assert_eq!(func.resolve(&ctx), Ok(Value::Array(Vec::new())));
}

#[test]
fn variable_target_resolves() {
    let root = v_obj(vec![("events", Value::Array(vec![Value::Integer(1)]))]);
    let mut q = UnnestFn::new(p_fields(&["events"]));
    q.path.target = unnest::unnest::Target::Internal("foo".to_string());
    let ctx = Context {
        external: Value::Null,
        variables: vec![("foo".to_string(), root)],
    };
    assert_eq!(
        q.resolve(&ctx),
        Ok(Value::Array(vec![v_obj(vec![("events", Value::Integer(1))])]))
    );
}

#[test]
fn missing_variable_reads_as_null() {
    let mut q = UnnestFn::new(p_fields(&["events"]));
    q.path.target = unnest::unnest::Target::Internal("bar".to_string());
    let ctx = Context { external: Value::Null, variables: Vec::new() };
    assert_eq!(
        q.resolve(&ctx).map_err(|e| e.message()),
        Err("expected array, got null".to_owned())
    );
}

#[test]
fn inner_failure_propagates_verbatim() {
    let mut q = UnnestFn::new(p_fields(&["events"]));
    q.path.target = unnest::unnest::Target::Container(unnest::unnest::ExprInfo {
        resolved: Err("things went wrong".to_string()),
        type_def: td(k_unknown()),
    });
    let ctx = Context { external: Value::Null, variables: Vec::new() };
    assert_eq!(
        q.resolve(&ctx).map_err(|e| e.message()),
        Err("things went wrong".to_owned())
    );
}

#[test]
fn deep_merge_is_order_independent() {
    let a = k_obj_u(Some(k_bytes()), vec![("x", k_bytes()), ("y", k_arr(k_bytes()))]);
    let b = k_obj_u(
        Some(k_unknown()),
        vec![("y", k_arr_known(None, vec![(0, k_bytes())])), ("z", k_bytes())],
    );
    let ab = a.merge_with(&b, Depth::Deep);
    let ba = b.merge_with(&a, Depth::Deep);
    // the two walks list known entries in different orders; compare by lookup
    let ab_coll = ab.object.expect("object");
    let ba_coll = ba.object.expect("object");
    assert_eq!(ab_coll.known.len(), ba_coll.known.len());
    for (name, kind) in &ab_coll.known {
        let other = ba_coll
            .known
            .iter()
            .find(|(n, _)| n == name)
            .map(|(_, k)| k)
            .expect("key present both ways");
        assert_eq!(kind, other);
    }
    assert_eq!(ab_coll.unknown, ba_coll.unknown);
}

#[test]
fn unnest_on_scalar_root_reports_kind() {
    let func = UnnestFn::new(p_fields(&["a"]));
    let ctx = Context {
        external: v_obj(vec![("a", Value::Integer(3))]),
        variables: Vec::new(),
    };
    assert_eq!(
        func.resolve(&ctx).map_err(|e| e.message()),
        Err("expected array, got integer".to_owned())
    );
}

#[test]
fn internal_event_data_carries_fields() {
    let e = KeyValueParserError { key: "k".to_string(), error: "bad".to_string() };
    assert_eq!(e.key, "k");
    let s = KeyValueMultipleSplitResults { pair: "a=b=c".to_string() };
    assert_eq!(s.pair, "a=b=c");
}
