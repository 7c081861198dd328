use utiman::extract::{
    auth_answer, extract_series, extract_summary, first_text_field, json_path, json_scalar, money_text, parse_pipe_table,
    record_field, summary_from, truthy, Json, RawSeries,
};
use utiman::manifest::{Query, Series};

/// Reads JSON text into the library's model, as the application does.
fn parse(text: &str) -> Option<Json> {
    serde_json::from_str::<serde_json::Value>(text).ok().map(|v| model(&v))
}

fn model(v: &serde_json::Value) -> Json {
    match v {
        serde_json::Value::Null => Json::Null,
        serde_json::Value::Bool(b) => Json::Bool(*b),
        serde_json::Value::Number(n) => Json::Number {
            text: n.to_string(),
            bits: n.as_f64().map_or(0, |f| f.to_bits()),
        },
        serde_json::Value::String(s) => Json::Str(s.clone()),
        serde_json::Value::Array(a) => Json::Array { items: a.iter().map(model).collect(), text: v.to_string() },
        serde_json::Value::Object(m) => Json::Object {
            entries: m.iter().map(|(k, x)| (k.clone(), model(x))).collect(),
            text: v.to_string(),
        },
    }
}

/// Amount text to a number: "$1,234.56", "84.21", "-12", "($5.00)".
fn money(s: &str) -> Option<f64> {
    let t = s.trim();
    let (t, negative) = match t.strip_prefix('(').and_then(|x| x.strip_suffix(')')) {
        Some(inner) => (inner, true),
        None => (t, false),
    };
    let cleaned: String = t.chars().filter(|c| !"$,".contains(*c) && !c.is_whitespace()).collect();
    let v: f64 = cleaned.parse().ok()?;
    Some(if negative { -v } else { v })
}

struct Fields {
    balance: Option<f64>,
    due_date: Option<String>,
}

fn summary(q: &Query, out: &str) -> Fields {
    let raw = extract_summary(q, out);
    let mut balance = raw.balance.as_deref().and_then(money);
    if raw.cents {
        balance = balance.map(|b| b / 100.0);
    }
    Fields { balance, due_date: raw.due_date }
}

#[derive(Debug, PartialEq)]
struct Point {
    label: String,
    value: f64,
}

fn points(s: &Series, out: &str) -> Vec<Point> {
    let RawSeries { rows, cents } = extract_series(s, out);
    let scale = if cents { 100.0 } else { 1.0 };
    rows.into_iter()
        .filter_map(|r| {
            let value = r.values.iter().find_map(|v| v.as_deref().and_then(money))?;
            Some(Point { label: r.label, value: value / scale })
        })
        .collect()
}

fn query(format: &str, balance: &[&str], due: &[&str], scale: Option<&str>) -> Query {
    Query {
        args: vec![],
        format: format.into(),
        balance_fields: balance.iter().map(|s| s.to_string()).collect(),
        due_date_fields: due.iter().map(|s| s.to_string()).collect(),
        scale: scale.map(String::from),
    }
}

fn series(format: &str, items_path: &str, label: &str, values: &[&str], scale: Option<&str>) -> Series {
    Series {
        id: "s".into(),
        name: "S".into(),
        args: vec![],
        format: format.into(),
        items_path: items_path.into(),
        label_field: vec![label.into()],
        value_fields: values.iter().map(|s| s.to_string()).collect(),
        unit: None,
        scale: scale.map(String::from),
        chart: "bar".into(),
    }
}

#[test]
fn json_paths_with_array_index() {
    let v = parse(r#"{"services": [{"due_date": "08/01/2026"}]}"#).unwrap();
    let found = json_path(&v, "services.0.due_date").unwrap();
    assert!(matches!(found, Json::Str(s) if s == "08/01/2026"));
    assert!(json_path(&v, "services.1.due_date").is_none());
}

#[test]
fn lrfl_shape() {
    let q = query("json", &["balance_due"], &["services.0.due_date"], None);
    let out = r#"{"account":"1234567-0","balance_due":61.75,
                  "services":[{"service":"SEWER","amount_due":61.75,"due_date":"08/01/2026"}]}"#;
    let s = summary(&q, out);
    assert_eq!(s.balance, Some(61.75));
    assert_eq!(s.due_date.as_deref(), Some("08/01/2026"));
}

#[test]
fn tojfl_shape_cents() {
    let q = query("json", &["balance.cents"], &["due_date"], Some("cents"));
    let out = r#"{"balance":{"cents":8421},"due_date":"07/18/2026","name":null}"#;
    let s = summary(&q, out);
    assert_eq!(s.balance, Some(84.21));
    assert_eq!(s.due_date.as_deref(), Some("07/18/2026"));
}

#[test]
fn fpl_text_shape() {
    let q = query("text", &["Balance"], &["Due date"], None);
    let out = "Balance: $142.10\nDue date: 07/22/2026\nPast due: $0.00\n";
    let s = summary(&q, out);
    assert_eq!(s.balance, Some(142.10));
    assert_eq!(s.due_date.as_deref(), Some("07/22/2026"));
}

#[test]
fn fallback_paths_in_order() {
    let q = query("json", &["data.amount", "data.balance"], &[], None);
    let s = summary(&q, r#"{"data":{"balance":"$50.00"}}"#);
    assert_eq!(s.balance, Some(50.0));
}

#[test]
fn tojfl_bills_series() {
    let s = series("json", "", "date", &["amount.cents"], Some("cents"));
    let out = r#"[{"date":"06/01/2026","amount":{"cents":8421},"due_date":"06/18/2026"},
                  {"date":"05/01/2026","amount":{"cents":7900}}]"#;
    let pts = points(&s, out);
    assert_eq!(pts.len(), 2);
    assert_eq!(pts[0].label, "06/01/2026");
    assert_eq!(pts[0].value, 84.21);
}

#[test]
fn lrfl_payments_series() {
    let s = series("json", "payments", "payment_date", &["amount"], None);
    let out = r#"{"account":"1234567-0","payments":[
        {"transaction_id":"T1","amount":61.75,"payment_date":"05/28/2026"}]}"#;
    let pts = points(&s, out);
    assert_eq!(pts, vec![Point { label: "05/28/2026".into(), value: 61.75 }]);
}

#[test]
fn pipe_table_series_with_case_insensitive_headers() {
    let s = series("table", "", "Month", &["Amount"], None);
    let out = "Bill history\n\nMONTH | AMOUNT | KWH\nJun 2026 | $142.10 | 1120\nMay 2026 | $128.33 | 1044\n";
    let pts = points(&s, out);
    assert_eq!(pts.len(), 2);
    assert_eq!(pts[1].label, "May 2026");
    assert_eq!(pts[1].value, 128.33);
}

#[test]
fn missing_values_are_skipped() {
    let s = series("json", "", "date", &["amount.cents"], Some("cents"));
    let out = r#"[{"date":"06/01/2026"},{"date":"05/01/2026","amount":{"cents":100}}]"#;
    let pts = points(&s, out);
    assert_eq!(pts.len(), 1);
    assert_eq!(pts[0].value, 1.0);
}

#[test]
fn profile_summary_needs_no_field_config() {
    let q = query("json", &[], &[], None);
    let out = r#"{"schema":"utility-summary/v1",
                  "balance":{"amount":"84.21","currency":"USD"},
                  "due_date":"2026-07-18","account":"12345-0"}"#;
    let s = summary(&q, out);
    assert_eq!(s.balance, Some(84.21));
    assert_eq!(s.due_date.as_deref(), Some("2026-07-18"));
}

#[test]
fn profile_summary_overrides_manifest_fields() {
    let q = query("json", &["balance.cents"], &["services.0.due_date"], Some("cents"));
    let out = r#"{"schema":"utility-summary/v1",
                  "balance":{"amount":"84.21","currency":"USD"},
                  "due_date":"2026-07-18"}"#;
    let s = summary(&q, out);
    assert_eq!(s.balance, Some(84.21));
    assert_eq!(s.due_date.as_deref(), Some("2026-07-18"));
}

#[test]
fn profile_summary_without_due_date() {
    let q = query("json", &[], &[], None);
    let out = r#"{"schema":"utility-summary/v1",
                  "balance":{"amount":"0.00","currency":"USD"}}"#;
    let s = summary(&q, out);
    assert_eq!(s.balance, Some(0.0));
    assert_eq!(s.due_date, None);
}

#[test]
fn other_schemas_fall_through_to_manifest_fields() {
    let q = query("json", &["balance.cents"], &["due_date"], Some("cents"));
    let out = r#"{"schema":"tojfl-summary/v1","balance":{"cents":8421},"due_date":"07/18/2026"}"#;
    let s = summary(&q, out);
    assert_eq!(s.balance, Some(84.21));
}

#[test]
fn paged_envelope_items_fast_path() {
    let s = series("json", "", "date", &["amount"], None);
    let out = r#"{"schema":"statement-list/v1","items":[
        {"id":"2026-06","date":"2026-06-15","amount":{"amount":"84.21","currency":"USD"}},
        {"id":"2026-05","date":"2026-05-15","amount":{"amount":"79.00","currency":"USD"}}]}"#;
    let pts = points(&s, out);
    assert_eq!(pts.len(), 2);
    assert_eq!(pts[0].label, "2026-06-15");
    assert_eq!(pts[0].value, 84.21);
    assert_eq!(pts[1].value, 79.00);
}

#[test]
fn paged_envelope_ignores_stale_cents_scale() {
    let s = series("json", "", "date", &["amount.cents", "amount"], Some("cents"));
    let out = r#"{"schema":"statement-list/v1","items":[
        {"id":"1","date":"2026-06-15","amount":{"amount":"84.21","currency":"USD"}}]}"#;
    let pts = points(&s, out);
    assert_eq!(pts.len(), 1);
    assert_eq!(pts[0].value, 84.21);
    let old = r#"[{"date":"06/15/2026","amount":{"cents":8421}}]"#;
    let pts = points(&s, old);
    assert_eq!(pts[0].value, 84.21);
}

#[test]
fn truthy_covers_status_shapes() {
    assert!(truthy(&parse("true").unwrap()));
    assert!(!truthy(&parse("false").unwrap()));
    assert!(!truthy(&parse("null").unwrap()));
    assert!(truthy(&parse(r#""user@example.com""#).unwrap()));
    assert!(!truthy(&parse(r#""""#).unwrap()));
    assert!(!truthy(&parse("0").unwrap()));
}

#[test]
fn scalars_as_text() {
    let v = parse(r#"{"n":8421,"f":61.75,"b":true,"z":null,"a":[1,2],"m":{"amount":"9.50","currency":"USD"},"o":{"x":1}}"#).unwrap();
    let text = |p: &str| json_scalar(json_path(&v, p).unwrap());
    assert_eq!(text("n"), "8421");
    assert_eq!(text("f"), "61.75");
    assert_eq!(text("b"), "true");
    assert_eq!(text("z"), "null");
    assert_eq!(text("a"), "[1,2]");
    assert_eq!(text("m"), "9.50");
    assert_eq!(text("o"), r#"{"x":1}"#);
}

#[test]
fn path_segments_and_indices() {
    let v = parse(r#"{"a":{"":[10,20,30]},"b":[[1],[2,3]]}"#).unwrap();
    assert_eq!(json_scalar(json_path(&v, "a..2").unwrap()), "30");
    assert_eq!(json_scalar(json_path(&v, "b.1.+1").unwrap()), "3");
    assert!(json_path(&v, "b.-1").is_none());
    assert!(json_path(&v, "b.99999999999999999999999").is_none());
    assert!(json_path(&v, "a.x").is_none());
}

#[test]
fn text_fields_match_labels_ignoring_case() {
    let out = "Account: 12\r\nDUE DATE :  07/22/2026 \nEmpty:\nBalance: $5\n";
    let labels = vec!["due date".to_string()];
    assert_eq!(first_text_field(out, &labels).as_deref(), Some("07/22/2026"));
    let labels = vec!["empty".to_string(), "balance".to_string()];
    assert_eq!(first_text_field(out, &labels).as_deref(), Some("$5"));
    let labels = vec!["missing".to_string()];
    assert_eq!(first_text_field(out, &labels), None);
}

#[test]
fn pipe_table_rows_are_keyed_maps() {
    let rows = parse_pipe_table("title\nB | A | B\n1 | 2 | 3\nx | y\nno bar\n");
    assert_eq!(rows.len(), 2);
    let keys: Vec<&str> = rows[0].iter().map(|(k, _)| k.as_str()).collect();
    assert_eq!(keys, ["A", "B"]);
    assert_eq!(record_field(&rows[0], "B").as_deref(), Some("3"));
    assert_eq!(record_field(&rows[0], "a").as_deref(), Some("2"));
    assert_eq!(record_field(&rows[1], "b").as_deref(), Some("x"));
    assert_eq!(record_field(&rows[1], "c"), None);
    assert!(parse_pipe_table("no table here").is_empty());
}

#[test]
fn label_field_fallback_chain() {
    let mut s = series("json", "", "payment_date", &["amount"], None);
    s.label_field = vec!["payment_date".into(), "date".into()];
    let out = r#"[{"payment_date":"05/28/2026","amount":61.75},{"date":"04/28/2026","amount":"$60.00"},{"amount":1}]"#;
    let pts = points(&s, out);
    assert_eq!(
        pts,
        vec![
            Point { label: "05/28/2026".into(), value: 61.75 },
            Point { label: "04/28/2026".into(), value: 60.0 },
        ]
    );
}

#[test]
fn summary_reads_its_output_as_json() {
    let q = query("json", &["a.b"], &[], None);
    let out = r#"{"a":{"b":"12.5"}}"#;
    let raw = extract_summary(&q, out);
    assert_eq!(raw.balance.as_deref(), Some("12.5"));
    let unparsed = summary_from(&q, out, None);
    assert_eq!(unparsed.balance, None);
    let bad = extract_summary(&q, "{not json");
    assert_eq!(bad.balance, None);
}

#[test]
fn auth_answers_from_status_json() {
    assert_eq!(auth_answer(r#"{"authenticated":true}"#, "authenticated"), Some(true));
    assert_eq!(auth_answer(r#"{"user":{"email":""}}"#, "user.email"), Some(false));
    assert_eq!(auth_answer(r#"{"n":-0.0}"#, "n"), Some(false));
    assert_eq!(auth_answer(r#"{"n":0.5}"#, "n"), Some(true));
    assert_eq!(auth_answer(r#"{"a":1}"#, "b"), None);
    assert_eq!(auth_answer("not json", "a"), None);
}

#[test]
fn money_text_cleans_amounts() {
    assert_eq!(money_text("$1,234.56"), ("1234.56".to_string(), false));
    assert_eq!(money_text("84.21"), ("84.21".to_string(), false));
    assert_eq!(money_text("($5.00)"), ("5.00".to_string(), true));
    assert_eq!(money_text(" -12 "), ("-12".to_string(), false));
    assert_eq!(money_text("n/a"), ("n/a".to_string(), false));
    assert_eq!(money_text("( $ 1 )"), ("1".to_string(), true));
    assert_eq!(money_text("("), ("(".to_string(), false));
}
