use serde_json_assert::ArraySortingMode;
use serde_json_assert::CompareMode;
use serde_json_assert::Config;
use serde_json_assert::Difference;
use serde_json_assert::FloatCompareMode;
use serde_json_assert::Number;
use serde_json_assert::NumericMode;
use serde_json_assert::Side;
use serde_json_assert::Value;
use serde_json_assert::diff;
use serde_json_assert::diff::try_matches;
use serde_json_assert::diff::values_equiv;
use std::time::Instant;

fn text(x: &str) -> Value {
    Value::Text(x.to_string())
}

fn uint(x: u64) -> Value {
    Value::Number(Number::PosInt(x))
}

fn neg(x: i64) -> Value {
    Value::Number(Number::NegInt(x))
}

fn float(x: f64) -> Value {
    Value::Number(Number::Float(x.to_bits()))
}

fn arr(xs: Vec<Value>) -> Value {
    Value::Array(xs)
}

fn obj(entries: Vec<(&str, Value)>) -> Value {
    let mut out: Vec<(String, Value)> = Vec::new();
    for (k, v) in entries {
        out.push((k.to_string(), v));
    }
    Value::Object(out)
}

fn inclusive() -> Config {
    Config::new(CompareMode::Inclusive)
}

fn strict() -> Config {
    Config::new(CompareMode::Strict)
}

fn contains_config() -> Config {
    Config::new(CompareMode::Inclusive).consider_array_sorting(false)
}

fn partial_diff(lhs: &Value, rhs: &Value) -> Vec<Difference> {
    diff(lhs, rhs, &inclusive())
}

fn exact_diff(lhs: &Value, rhs: &Value) -> Vec<Difference> {
    diff(lhs, rhs, &strict())
}

#[test]
fn boolean_root() {
    assert!(partial_diff(&Value::Bool(true), &Value::Bool(true)).is_empty());
    assert!(partial_diff(&Value::Bool(false), &Value::Bool(false)).is_empty());

    let d = partial_diff(&Value::Bool(false), &Value::Bool(true));
    assert_eq!(d.len(), 1);
    match &d[0] {
        Difference::AtomMismatch { path, lhs, rhs } => {
            assert_eq!(path.render(), "(root)");
            assert!(matches!(lhs, Value::Bool(false)));
            assert!(matches!(rhs, Value::Bool(true)));
        }
        _ => panic!("expected an atom mismatch"),
    }

    let d = partial_diff(&Value::Bool(true), &Value::Bool(false));
    assert_eq!(d.len(), 1);
    match &d[0] {
        Difference::AtomMismatch { path, lhs, rhs } => {
            assert_eq!(path.render(), "(root)");
            assert!(matches!(lhs, Value::Bool(true)));
            assert!(matches!(rhs, Value::Bool(false)));
        }
        _ => panic!("expected an atom mismatch"),
    }
}

#[test]
fn string_root() {
    assert!(partial_diff(&text("true"), &text("true")).is_empty());
    assert!(partial_diff(&text("false"), &text("false")).is_empty());

    let d = partial_diff(&text("false"), &text("true"));
    assert_eq!(d.len(), 1);
    match &d[0] {
        Difference::AtomMismatch { path, .. } => assert_eq!(path.render(), "(root)"),
        _ => panic!("expected an atom mismatch"),
    }

    let d = partial_diff(&text("true"), &text("false"));
    assert_eq!(d.len(), 1);
}

#[test]
fn number_root() {
    assert!(partial_diff(&uint(1), &uint(1)).is_empty());
    assert!(partial_diff(&uint(0), &uint(0)).is_empty());
    assert_eq!(partial_diff(&uint(0), &uint(1)).len(), 1);
    assert_eq!(partial_diff(&uint(1), &uint(0)).len(), 1);
}

#[test]
fn null_root() {
    assert!(partial_diff(&Value::Null, &Value::Null).is_empty());
    assert_eq!(partial_diff(&Value::Null, &uint(1)).len(), 1);
    assert_eq!(partial_diff(&uint(1), &Value::Null).len(), 1);
}

#[test]
fn into_object() {
    let a = obj(vec![("a", Value::Bool(true))]);
    let b = obj(vec![("a", Value::Bool(true))]);
    assert!(partial_diff(&a, &b).is_empty());

    let a = obj(vec![("a", Value::Bool(false))]);
    let b = obj(vec![("a", Value::Bool(true))]);
    let d = partial_diff(&a, &b);
    assert_eq!(d.len(), 1);
    match &d[0] {
        Difference::AtomMismatch { path, .. } => assert_eq!(path.render(), ".a"),
        _ => panic!("expected an atom mismatch"),
    }

    let a = obj(vec![("a", obj(vec![("b", Value::Bool(true))]))]);
    let b = obj(vec![("a", obj(vec![("b", Value::Bool(true))]))]);
    assert!(partial_diff(&a, &b).is_empty());

    let a = obj(vec![("a", Value::Bool(true))]);
    let b = obj(vec![("a", obj(vec![("b", Value::Bool(true))]))]);
    let d = partial_diff(&a, &b);
    assert_eq!(d.len(), 1);
    match &d[0] {
        Difference::AtomMismatch { path, .. } => assert_eq!(path.render(), ".a"),
        _ => panic!("expected an atom mismatch"),
    }

    let a = obj(vec![]);
    let b = obj(vec![("a", Value::Bool(true))]);
    let d = partial_diff(&a, &b);
    assert_eq!(d.len(), 1);
    match &d[0] {
        Difference::ObjectKeyMissing { path, side, other } => {
            assert_eq!(path.render(), ".a");
            assert_eq!(*side, Side::Lhs);
            assert!(matches!(other, Value::Bool(true)));
        }
        _ => panic!("expected a missing object key"),
    }

    let a = obj(vec![("a", obj(vec![("b", Value::Bool(true))]))]);
    let b = obj(vec![("a", Value::Bool(true))]);
    let d = partial_diff(&a, &b);
    assert_eq!(d.len(), 1);
    match &d[0] {
        Difference::AtomMismatch { path, .. } => assert_eq!(path.render(), ".a"),
        _ => panic!("expected an atom mismatch"),
    }
}

#[test]
fn into_array() {
    assert!(partial_diff(&arr(vec![uint(1)]), &arr(vec![uint(1)])).is_empty());

    let d = partial_diff(&arr(vec![uint(2)]), &arr(vec![uint(1)]));
    assert_eq!(d.len(), 1);
    match &d[0] {
        Difference::AtomMismatch { path, .. } => assert_eq!(path.render(), "[0]"),
        _ => panic!("expected an atom mismatch"),
    }

    let d = partial_diff(&arr(vec![uint(1), uint(2), uint(4)]), &arr(vec![uint(1), uint(2), uint(3)]));
    assert_eq!(d.len(), 1);
    match &d[0] {
        Difference::AtomMismatch { path, .. } => assert_eq!(path.render(), "[2]"),
        _ => panic!("expected an atom mismatch"),
    }

    let a = obj(vec![("a", arr(vec![uint(1), uint(2), uint(3)]))]);
    let b = obj(vec![("a", arr(vec![uint(1), uint(2), uint(4)]))]);
    let d = partial_diff(&a, &b);
    assert_eq!(d.len(), 1);
    match &d[0] {
        Difference::AtomMismatch { path, .. } => assert_eq!(path.render(), ".a[2]"),
        _ => panic!("expected an atom mismatch"),
    }

    let a = obj(vec![("a", arr(vec![uint(1), uint(2), uint(3)]))]);
    let b = obj(vec![("a", arr(vec![uint(1), uint(2)]))]);
    assert!(partial_diff(&a, &b).is_empty());

    let a = obj(vec![("a", arr(vec![uint(1), uint(2)]))]);
    let b = obj(vec![("a", arr(vec![uint(1), uint(2), uint(3)]))]);
    let d = partial_diff(&a, &b);
    assert_eq!(d.len(), 1);
    match &d[0] {
        Difference::ArrayIndexMissing { path, side, other } => {
            assert_eq!(path.render(), ".a[2]");
            assert_eq!(*side, Side::Lhs);
            assert!(matches!(other, Value::Number(Number::PosInt(3))));
        }
        _ => panic!("expected a missing array index"),
    }
}

#[test]
fn exact_matching() {
    assert!(exact_diff(&Value::Bool(true), &Value::Bool(true)).is_empty());
    assert!(exact_diff(&text("s"), &text("s")).is_empty());

    let d = exact_diff(&text("a"), &text("b"));
    assert_eq!(d.len(), 1);
    match &d[0] {
        Difference::AtomMismatch { path, .. } => assert_eq!(path.render(), "(root)"),
        _ => panic!("expected an atom mismatch"),
    }

    let a = obj(vec![("a", arr(vec![uint(1), obj(vec![("b", uint(2))])]))]);
    let b = obj(vec![("a", arr(vec![uint(1), obj(vec![("b", uint(3))])]))]);
    let d = exact_diff(&a, &b);
    assert_eq!(d.len(), 1);
    match &d[0] {
        Difference::AtomMismatch { path, .. } => assert_eq!(path.render(), ".a[1].b"),
        _ => panic!("expected an atom mismatch"),
    }
}

#[test]
fn exact_match_output_message() {
    let a = obj(vec![("a", obj(vec![("b", uint(1))]))]);
    let b = obj(vec![("a", obj(vec![]))]);
    let d = exact_diff(&a, &b);
    assert_eq!(d.len(), 1);
    match &d[0] {
        Difference::ObjectKeyMissing { path, side, .. } => {
            assert_eq!(path.render(), ".a.b");
            assert_eq!(*side, Side::Rhs);
        }
        _ => panic!("expected a missing object key"),
    }

    let a = obj(vec![("a", obj(vec![]))]);
    let b = obj(vec![("a", obj(vec![("b", uint(1))]))]);
    let d = exact_diff(&a, &b);
    assert_eq!(d.len(), 1);
    match &d[0] {
        Difference::ObjectKeyMissing { path, side, .. } => {
            assert_eq!(path.render(), ".a.b");
            assert_eq!(*side, Side::Lhs);
        }
        _ => panic!("expected a missing object key"),
    }
}

fn sample_pair() -> (Value, Value) {
    let a = obj(vec![
        ("a", obj(vec![("b", Value::Bool(true))])),
        ("c", arr(vec![Value::Bool(true), Value::Null, uint(1)])),
    ]);
    let b = obj(vec![
        ("a", obj(vec![("b", Value::Bool(true))])),
        ("c", arr(vec![Value::Bool(true), Value::Null, uint(1)])),
    ]);
    (a, b)
}

#[test]
fn can_pass() {
    let (a, b) = sample_pair();
    assert!(partial_diff(&a, &b).is_empty());

    let a = obj(vec![("a", obj(vec![("b", Value::Bool(true))]))]);
    let b = obj(vec![("a", obj(vec![]))]);
    assert!(partial_diff(&a, &b).is_empty());
}

#[test]
fn can_fail() {
    let a = obj(vec![
        ("a", obj(vec![("b", Value::Bool(true))])),
        ("c", arr(vec![Value::Bool(true), Value::Null, uint(1)])),
    ]);
    let b = obj(vec![
        ("a", obj(vec![("b", Value::Bool(false))])),
        ("c", arr(vec![Value::Bool(false), Value::Null, obj(vec![])])),
    ]);
    assert!(!partial_diff(&a, &b).is_empty());
}

#[test]
fn different_numeric_types_include_should_fail() {
    let a = obj(vec![("a", obj(vec![("b", Value::Bool(true))])), ("c", uint(1))]);
    let b = obj(vec![("a", obj(vec![("b", Value::Bool(true))])), ("c", float(1.0))]);
    assert!(!partial_diff(&a, &b).is_empty());
}

#[test]
fn different_numeric_types_eq_should_fail() {
    let a = obj(vec![("a", obj(vec![("b", Value::Bool(true))])), ("c", uint(1))]);
    let b = obj(vec![("a", obj(vec![("b", Value::Bool(true))])), ("c", float(1.0))]);
    assert!(!exact_diff(&a, &b).is_empty());
}

#[test]
fn different_numeric_types_assume_float() {
    let a = obj(vec![
        ("a", obj(vec![("b", Value::Bool(true))])),
        ("c", arr(vec![Value::Bool(true), Value::Null, uint(1)])),
    ]);
    let b = obj(vec![
        ("a", obj(vec![("b", Value::Bool(true))])),
        ("c", arr(vec![Value::Bool(true), Value::Null, float(1.0)])),
    ]);
    let config = Config::new(CompareMode::Inclusive).numeric_mode(NumericMode::AssumeFloat);
    assert!(diff(&a, &b, &config).is_empty());

    let config = config.compare_mode(CompareMode::Strict);
    assert!(diff(&a, &b, &config).is_empty());
}

#[test]
fn can_pass_with_exact_match() {
    let a = obj(vec![("a", obj(vec![("b", Value::Bool(true))]))]);
    let b = obj(vec![("a", obj(vec![("b", Value::Bool(true))]))]);
    assert!(exact_diff(&a, &b).is_empty());
}

#[test]
fn can_pass_with_contains_match() {
    let c = contains_config();
    assert!(diff(&Value::Null, &Value::Null, &c).is_empty());
    assert!(diff(&uint(1), &uint(1), &c).is_empty());
    assert!(diff(&text("a"), &text("a"), &c).is_empty());
    let a = obj(vec![("a", obj(vec![("b", Value::Bool(true))]))]);
    let b = obj(vec![("a", obj(vec![("b", Value::Bool(true))]))]);
    assert!(diff(&a, &b, &c).is_empty());
    let a = obj(vec![("a", obj(vec![("b", Value::Bool(true))])), ("c", uint(1))]);
    let b = obj(vec![("a", obj(vec![("b", Value::Bool(true))]))]);
    assert!(diff(&a, &b, &c).is_empty());
    let a = arr(vec![uint(1), uint(2), uint(3)]);
    let b = arr(vec![uint(1), uint(2), uint(3)]);
    assert!(diff(&a, &b, &c).is_empty());
    let b = arr(vec![uint(2), uint(3), uint(1)]);
    assert!(diff(&a, &b, &c).is_empty());
    let a = arr(vec![uint(1), uint(2), uint(3), uint(4)]);
    let b = arr(vec![uint(1), uint(2), uint(3)]);
    assert!(diff(&a, &b, &c).is_empty());
    let b = arr(vec![uint(2), uint(3), uint(1)]);
    assert!(diff(&a, &b, &c).is_empty());
    let a = arr(vec![uint(1), uint(2), uint(3), uint(1), uint(4)]);
    let b = arr(vec![uint(1), uint(2), uint(3), uint(1), uint(4)]);
    assert!(diff(&a, &b, &c).is_empty());
    let b = arr(vec![uint(3), uint(1), uint(2), uint(1), uint(4)]);
    assert!(diff(&a, &b, &c).is_empty());
    let b = arr(vec![uint(1), uint(2), uint(3), uint(1)]);
    assert!(diff(&a, &b, &c).is_empty());
    let b = arr(vec![uint(2), uint(1), uint(3), uint(1)]);
    assert!(diff(&a, &b, &c).is_empty());
}

#[test]
fn can_fail_with_exact_match() {
    let a = obj(vec![("a", obj(vec![("b", Value::Bool(true))]))]);
    let b = obj(vec![("a", obj(vec![]))]);
    assert!(!exact_diff(&a, &b).is_empty());
}

#[test]
fn inclusive_match_without_panicking() {
    let config = Config::new(CompareMode::Inclusive).numeric_mode(NumericMode::Strict);
    let a = obj(vec![("a", uint(1)), ("b", uint(2))]);
    let b = obj(vec![("b", uint(2))]);
    assert!(try_matches(&a, &b, &config).is_ok());
    assert!(try_matches(&a, &text("foo"), &config).is_err());
}

#[test]
fn exact_match_without_panicking() {
    let config = Config::new(CompareMode::Strict).numeric_mode(NumericMode::Strict);
    let a = arr(vec![uint(1), uint(2), uint(3)]);
    let b = arr(vec![uint(1), uint(2), uint(3)]);
    assert!(try_matches(&a, &b, &config).is_ok());
    assert!(try_matches(&a, &text("foo"), &config).is_err());
}

#[test]
fn can_pass_with_exact_float_comparison() {
    let a = obj(vec![("name", text("bob")), ("height", float(1.79))]);
    let b = obj(vec![("name", text("bob")), ("height", float(1.79))]);
    let config = Config::new(CompareMode::Strict).float_compare_mode(FloatCompareMode::Exact);
    assert!(diff(&a, &b, &config).is_empty());
}

#[test]
fn can_fail_with_exact_float_comparison() {
    let a = obj(vec![("name", text("bob")), ("height", float(1.7900001))]);
    let b = obj(vec![("name", text("bob")), ("height", float(1.79))]);
    let config = Config::new(CompareMode::Strict).float_compare_mode(FloatCompareMode::Exact);
    assert!(!diff(&a, &b, &config).is_empty());
}

#[test]
fn can_pass_with_epsilon_based_float_comparison() {
    let a = obj(vec![("name", text("bob")), ("height", float(1.7900001))]);
    let b = obj(vec![("name", text("bob")), ("height", float(1.79))]);
    let config = Config::new(CompareMode::Strict).float_compare_mode(
        FloatCompareMode::Epsilon(0.00001f64.to_bits()),
    );
    assert!(diff(&a, &b, &config).is_empty());
}

#[test]
fn can_fail_with_epsilon_based_float_comparison() {
    let a = obj(vec![("name", text("bob")), ("height", float(1.7901))]);
    let b = obj(vec![("name", text("bob")), ("height", float(1.79))]);
    let config = Config::new(CompareMode::Strict).float_compare_mode(
        FloatCompareMode::Epsilon(0.00001f64.to_bits()),
    );
    assert!(!diff(&a, &b, &config).is_empty());
}

#[test]
fn ignore_array_sorting_with_inclusive_comparisons() {
    let actual = arr(vec![
        obj(vec![("a", uint(1)), ("b", Value::Bool(true)), ("c", text("foo"))]),
        obj(vec![("a", uint(2)), ("b", Value::Bool(false)), ("c", text("bar"))]),
        obj(vec![("a", uint(3)), ("b", Value::Bool(false)), ("c", text("baz"))]),
    ]);
    let expected = arr(vec![
        obj(vec![("b", Value::Bool(false)), ("c", text("bar"))]),
        obj(vec![("b", Value::Bool(true)), ("c", text("foo"))]),
    ]);
    let config = Config::new(CompareMode::Inclusive).consider_array_sorting(false);
    assert!(diff(&actual, &expected, &config).is_empty());
}

#[test]
fn test_diff_json_values_speed() {
    let value1 = obj(vec![
        ("name", text("Alice")),
        ("age", uint(30)),
        ("emails", arr(vec![text("alice@example.com"), text("alice@work.com")])),
        ("address", obj(vec![("city", text("Wonderland")), ("zip", text("12345"))])),
    ]);
    let value2 = obj(vec![
        ("name", text("Bob")),
        ("age", uint(25)),
        ("emails", arr(vec![text("bob@example.com")])),
        ("address", obj(vec![("city", text("Builderland")), ("zip", text("54321"))])),
    ]);

    let iterations = 100_000;
    let start = Instant::now();
    let config = Config::new(CompareMode::Strict);

    for _ in 0..iterations {
        let _ = try_matches(&value1, &value2, &config);
    }

    let duration = start.elapsed();
    println!("Comparing two values {} times took: {:?}", iterations, duration);
}

#[test]
fn reflexivity_on_nested_values() {
    let v = obj(vec![
        ("nil", Value::Null),
        ("flag", Value::Bool(true)),
        ("small", uint(7)),
        ("low", neg(-7)),
        ("pi", float(3.14159)),
        ("words", text("hello")),
        ("items", arr(vec![uint(1), float(2.5), text("x")])),
        ("inner", obj(vec![("k", arr(vec![Value::Null]))])),
    ]);
    let configs = vec![
        Config::new(CompareMode::Strict),
        Config::new(CompareMode::Inclusive),
        Config::new(CompareMode::Inclusive).consider_array_sorting(false),
        Config::new(CompareMode::Strict).numeric_mode(NumericMode::AssumeFloat),
        Config::new(CompareMode::Strict).float_compare_mode(
            FloatCompareMode::Epsilon(0.001f64.to_bits()),
        ),
        Config::new(CompareMode::Inclusive).numeric_mode(NumericMode::AssumeFloat)
            .float_compare_mode(FloatCompareMode::Epsilon(0.0f64.to_bits())),
    ];
    for config in &configs {
        assert!(diff(&v, &v, config).is_empty());
        assert!(values_equiv(&v, &v, config));
    }
}

#[test]
fn strict_symmetry_on_scenarios() {
    let a = obj(vec![("x", uint(1)), ("y", arr(vec![uint(1), uint(2)]))]);
    let b = obj(vec![("x", uint(1)), ("z", arr(vec![uint(1), uint(2)]))]);
    let c = strict();
    assert_eq!(diff(&a, &b, &c).is_empty(), diff(&b, &a, &c).is_empty());
    let d_ab = diff(&a, &b, &c);
    let d_ba = diff(&b, &a, &c);
    assert_eq!(d_ab.len(), d_ba.len());
    match (&d_ab[0], &d_ba[1]) {
        (
            Difference::ObjectKeyMissing { path: p1, side: s1, .. },
            Difference::ObjectKeyMissing { path: p2, side: s2, .. },
        ) => {
            assert_eq!(p1.render(), ".y");
            assert_eq!(p2.render(), ".y");
            assert_eq!(*s1, Side::Rhs);
            assert_eq!(*s2, Side::Lhs);
        }
        _ => panic!("expected missing keys"),
    }

    let e = obj(vec![("x", uint(1))]);
    let f = obj(vec![("x", uint(1))]);
    assert!(diff(&e, &f, &c).is_empty());
    assert!(diff(&f, &e, &c).is_empty());
}

#[test]
fn inclusive_monotonicity_scenario() {
    let expected = obj(vec![("a", uint(1)), ("list", arr(vec![uint(1), uint(2)]))]);
    let actual = obj(vec![("a", uint(1)), ("list", arr(vec![uint(1), uint(2)]))]);
    let c = inclusive();
    assert!(diff(&actual, &expected, &c).is_empty());

    let wider = obj(vec![
        ("a", uint(1)),
        ("list", arr(vec![uint(1), uint(2)])),
        ("extra", text("ignored")),
    ]);
    assert!(diff(&wider, &expected, &c).is_empty());

    let longer = arr(vec![uint(1), uint(2), uint(3)]);
    let want = arr(vec![uint(1), uint(2)]);
    assert!(diff(&longer, &want, &c).is_empty());
}

#[test]
fn numeric_strictness() {
    let c = strict();
    assert!(!diff(&uint(1), &float(1.0), &c).is_empty());

    let c = strict().numeric_mode(NumericMode::AssumeFloat);
    assert!(diff(&uint(1), &float(1.0), &c).is_empty());
}

#[test]
fn epsilon_tolerance() {
    let c = strict().numeric_mode(NumericMode::AssumeFloat).float_compare_mode(
        FloatCompareMode::Epsilon(0.00001f64.to_bits()),
    );
    assert!(diff(&float(1.79), &float(1.7900001), &c).is_empty());
    assert!(!diff(&float(1.79), &float(1.7901), &c).is_empty());
}

#[test]
fn epsilon_exact_boundary() {
    let c = strict().float_compare_mode(FloatCompareMode::Epsilon(0.25f64.to_bits()));
    assert!(diff(&float(1.0), &float(1.25), &c).is_empty());
    let c = strict().float_compare_mode(FloatCompareMode::Epsilon(0.2f64.to_bits()));
    assert!(!diff(&float(1.0), &float(1.25), &c).is_empty());
}

#[test]
fn epsilon_infinite_admits_everything() {
    let c = strict().numeric_mode(NumericMode::AssumeFloat).float_compare_mode(
        FloatCompareMode::Epsilon(f64::INFINITY.to_bits()),
    );
    assert!(diff(&float(1.0), &float(99.0), &c).is_empty());
    assert!(diff(&uint(3), &neg(-1000), &c).is_empty());
}

#[test]
fn array_order_sensitivity() {
    let a = arr(vec![uint(1), uint(2), uint(3)]);
    let b = arr(vec![uint(2), uint(3), uint(1)]);
    let d = exact_diff(&a, &b);
    assert!(!d.is_empty());
    match &d[0] {
        Difference::AtomMismatch { path, .. } => assert_eq!(path.render(), "[0]"),
        _ => panic!("expected an atom mismatch"),
    }

    let c = contains_config();
    assert!(diff(&a, &b, &c).is_empty());
}

#[test]
fn missing_key_report() {
    let a = obj(vec![]);
    let b = obj(vec![("a", Value::Bool(true))]);
    let d = partial_diff(&a, &b);
    assert_eq!(d.len(), 1);
    match &d[0] {
        Difference::ObjectKeyMissing { path, side, other } => {
            assert_eq!(path.render(), ".a");
            assert_eq!(*side, Side::Lhs);
            assert!(matches!(other, Value::Bool(true)));
        }
        _ => panic!("expected a missing object key"),
    }
}

#[test]
fn configuration_invariant() {
    let valid = Config::new(CompareMode::Strict);
    assert!(valid.is_valid());

    let clash = Config {
        array_sorting_mode: ArraySortingMode::Ignore,
        compare_mode: CompareMode::Strict,
        numeric_mode: NumericMode::Strict,
        float_compare_mode: FloatCompareMode::Exact,
    };
    assert!(!clash.is_valid());

    let nan_eps = Config::new(CompareMode::Strict).float_compare_mode(
        FloatCompareMode::Epsilon(f64::NAN.to_bits()),
    );
    assert!(!nan_eps.is_valid());

    let neg_eps = Config::new(CompareMode::Strict).float_compare_mode(
        FloatCompareMode::Epsilon((-1.0f64).to_bits()),
    );
    assert!(!neg_eps.is_valid());

    let fine = Config::new(CompareMode::Inclusive).consider_array_sorting(false);
    assert!(fine.is_valid());
    assert_eq!(fine.array_sorting_mode, ArraySortingMode::Ignore);
}

#[test]
fn unordered_containment_counts_duplicates() {
    let c = contains_config();
    let actual = arr(vec![uint(1)]);
    let expected = arr(vec![uint(1), uint(1)]);
    let d = diff(&actual, &expected, &c);
    assert_eq!(d.len(), 1);
    match &d[0] {
        Difference::ArrayElementMissing { path, value } => {
            assert_eq!(path.render(), "[1]");
            assert!(matches!(value, Value::Number(Number::PosInt(1))));
        }
        _ => panic!("expected a missing array element"),
    }

    let actual = arr(vec![uint(1), uint(1)]);
    assert!(diff(&actual, &expected, &c).is_empty());
}

#[test]
fn empty_containers_are_equal() {
    assert!(exact_diff(&arr(vec![]), &arr(vec![])).is_empty());
    assert!(exact_diff(&obj(vec![]), &obj(vec![])).is_empty());
    assert!(diff(&arr(vec![]), &arr(vec![]), &contains_config()).is_empty());
}

#[test]
fn container_kind_mismatch_is_one_atom() {
    let d = exact_diff(&arr(vec![uint(1)]), &obj(vec![("a", uint(1))]));
    assert_eq!(d.len(), 1);
    assert!(matches!(&d[0], Difference::AtomMismatch { .. }));
}

#[test]
fn integer_rounding_at_float_precision_limit() {
    let a = uint(9007199254740993);
    let b = uint(9007199254740992);
    assert!(!exact_diff(&a, &b).is_empty());

    let c = strict().numeric_mode(NumericMode::AssumeFloat);
    assert!(diff(&a, &b, &c).is_empty());
}

#[test]
fn negative_and_positive_zero_floats_are_equal() {
    let c = strict();
    assert!(diff(&float(0.0), &float(-0.0), &c).is_empty());
}

#[test]
fn negative_integers_compare_exactly() {
    let c = strict();
    assert!(diff(&neg(-5), &neg(-5), &c).is_empty());
    assert!(!diff(&neg(-5), &neg(-6), &c).is_empty());
    assert!(!diff(&neg(-5), &uint(5), &c).is_empty());

    let c = strict().numeric_mode(NumericMode::AssumeFloat);
    assert!(diff(&neg(-5), &float(-5.0), &c).is_empty());
    assert!(diff(&neg(i64::MIN), &float(-9223372036854775808.0), &c).is_empty());
}

#[test]
fn path_rendering() {
    let a = obj(vec![("outer", arr(vec![
        uint(0), uint(0), uint(0), uint(0), uint(0), uint(0), uint(0), uint(0), uint(0), uint(0),
        uint(0), uint(0), obj(vec![("inner", uint(1))]),
    ]))]);
    let b = obj(vec![("outer", arr(vec![
        uint(0), uint(0), uint(0), uint(0), uint(0), uint(0), uint(0), uint(0), uint(0), uint(0),
        uint(0), uint(0), obj(vec![("inner", uint(2))]),
    ]))]);
    let d = exact_diff(&a, &b);
    assert_eq!(d.len(), 1);
    match &d[0] {
        Difference::AtomMismatch { path, .. } => assert_eq!(path.render(), ".outer[12].inner"),
        _ => panic!("expected an atom mismatch"),
    }
}

#[test]
fn strict_reports_both_sides_of_key_differences() {
    let a = obj(vec![("only_left", uint(1)), ("shared", uint(2))]);
    let b = obj(vec![("shared", uint(2)), ("only_right", uint(3))]);
    let d = exact_diff(&a, &b);
    assert_eq!(d.len(), 2);
    match &d[0] {
        Difference::ObjectKeyMissing { path, side, .. } => {
            assert_eq!(path.render(), ".only_left");
            assert_eq!(*side, Side::Rhs);
        }
        _ => panic!("expected a missing object key"),
    }
    match &d[1] {
        Difference::ObjectKeyMissing { path, side, .. } => {
            assert_eq!(path.render(), ".only_right");
            assert_eq!(*side, Side::Lhs);
        }
        _ => panic!("expected a missing object key"),
    }
}

#[test]
fn duplicate_value_preserves_structure() {
    let v = obj(vec![
        ("list", arr(vec![uint(1), text("two"), float(3.0)])),
        ("flag", Value::Bool(false)),
    ]);
    let copy = v.duplicate();
    assert!(exact_diff(&v, &copy).is_empty());
    assert!(values_equiv(&v, &copy, &strict()));
}
