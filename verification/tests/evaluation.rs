use pdf_template_core::evaluate::{
    evaluate_expr, placeholder_text, EvalContext, Evaluation, PlaceholderText,
};
use pdf_template_core::expression::ExpressionParser;
use pdf_template_core::json::{value_to_string, JsonValue};
use pdf_template_core::template::{data_entries, plan_repeating_groups, row_cell_text, DataEntry};

fn s(t: &str) -> String {
    t.to_string()
}

fn text(t: &str) -> JsonValue {
    JsonValue::String(s(t))
}

fn num(t: &str) -> JsonValue {
    JsonValue::Number(s(t))
}

fn obj(members: Vec<(&str, JsonValue)>) -> JsonValue {
    JsonValue::Object(members.into_iter().map(|(k, v)| (s(k), v)).collect())
}

fn empty_ctx() -> EvalContext {
    EvalContext { helpers: Vec::new(), numbers: Vec::new(), amounts: Vec::new() }
}

fn invoice_data() -> JsonValue {
    obj(vec![
        ("customer", obj(vec![("address", obj(vec![("city", text("Casablanca"))])), ("name", text("yassir"))])),
        ("invoice", obj(vec![("total", num("15000"))])),
        ("items", JsonValue::Array(vec![obj(vec![("name", text("Cloud Hosting")), ("price", num("450"))])])),
    ])
}

fn eval_text(expression: &str, data: &JsonValue, ctx: &EvalContext) -> PlaceholderText {
    placeholder_text(expression, data, ctx)
}

fn expect_text(r: PlaceholderText) -> String {
    match r {
        PlaceholderText::Text(t) => t,
        _ => panic!("expected a text"),
    }
}

#[test]
fn nested_properties_and_array_elements() {
    let data = invoice_data();
    let ctx = empty_ctx();
    assert_eq!(expect_text(eval_text(" customer.address.city ", &data, &ctx)), "Casablanca");
    assert_eq!(expect_text(eval_text("items[0].name", &data, &ctx)), "Cloud Hosting");
    assert_eq!(expect_text(eval_text("items[0].price", &data, &ctx)), "450");
}

#[test]
fn missing_variable_has_no_value() {
    let data = obj(vec![("user", obj(vec![]))]);
    assert!(matches!(eval_text("missing.var", &data, &empty_ctx()), PlaceholderText::Missing));
    assert!(matches!(eval_text("items[3]", &invoice_data(), &empty_ctx()), PlaceholderText::Missing));
    assert!(matches!(eval_text("customer.name.first", &invoice_data(), &empty_ctx()), PlaceholderText::Missing));
}

#[test]
fn invalid_expression_is_reported() {
    match eval_text("a.", &invoice_data(), &empty_ctx()) {
        PlaceholderText::Invalid(e) => assert_eq!(e.expression, "a."),
        _ => panic!("expected an invalid expression"),
    }
}

#[test]
fn uppercase_and_lowercase_builtins() {
    let data = invoice_data();
    let ctx = empty_ctx();
    assert_eq!(expect_text(eval_text("uppercase(customer.name)", &data, &ctx)), "YASSIR");
    assert_eq!(expect_text(eval_text("lowercase('MiXeD')", &data, &ctx)), "mixed");
    assert_eq!(expect_text(eval_text("trim('  pad ')", &data, &ctx)), "pad");
}

#[test]
fn currency_asks_for_its_amount_then_uses_it() {
    let data = invoice_data();
    let mut ctx = empty_ctx();
    match eval_text("currency(invoice.total)", &data, &ctx) {
        PlaceholderText::NeedAmount(t) => assert_eq!(t, "15000"),
        _ => panic!("expected a request for the amount"),
    }
    ctx.amounts.push((s("15000"), s("15000.00 MAD")));
    assert_eq!(expect_text(eval_text("currency(invoice.total)", &data, &ctx)), "15000.00 MAD");
}

#[test]
fn number_literal_asks_for_its_text() {
    let data = invoice_data();
    let mut ctx = empty_ctx();
    match eval_text("12.50", &data, &ctx) {
        PlaceholderText::NeedNumber(t) => assert_eq!(t, "12.50"),
        _ => panic!("expected a request for the number"),
    }
    ctx.numbers.push((s("12.50"), Some(s("12.5"))));
    assert_eq!(expect_text(eval_text("12.50", &data, &ctx)), "12.5");
    ctx.numbers.push((s("1e999"), None));
    let e = ExpressionParser::parse_expression("7").unwrap();
    assert!(matches!(evaluate_expr(&e, &data, &ctx), Evaluation::NeedNumber(_)));
}

#[test]
fn helper_results_take_precedence() {
    let data = obj(vec![("invoice", obj(vec![("dueDate", text("2026-09-18"))]))]);
    let mut ctx = empty_ctx();
    ctx.helpers.push((s("formatDate(2026-09-18)"), s("9/18/2026")));
    ctx.helpers.push((s("invoice.dueDate"), s("soon")));
    assert_eq!(expect_text(eval_text("formatDate(invoice.dueDate)", &data, &ctx)), "9/18/2026");
    assert_eq!(expect_text(eval_text("invoice.dueDate", &data, &ctx)), "soon");
    assert!(matches!(eval_text("unknown(invoice.dueDate)", &data, &ctx), PlaceholderText::Missing));
    assert!(matches!(eval_text("uppercase()", &data, &ctx), PlaceholderText::Missing));
}

#[test]
fn call_with_missing_argument_has_no_value() {
    let data = invoice_data();
    assert!(matches!(eval_text("uppercase(nothing, 3)", &data, &empty_ctx()), PlaceholderText::Missing));
}

#[test]
fn value_texts() {
    assert_eq!(value_to_string(&JsonValue::Null), "");
    assert_eq!(value_to_string(&JsonValue::Bool(true)), "true");
    assert_eq!(value_to_string(&JsonValue::Bool(false)), "false");
    assert_eq!(value_to_string(&num("3.25")), "3.25");
    assert_eq!(value_to_string(&JsonValue::Array(vec![JsonValue::Null, num("1"), text("x")])), "[3 items]");
    assert_eq!(value_to_string(&obj(vec![("a", num("1"))])), "[object Object]");
}

#[test]
fn row_cells() {
    let item = obj(vec![("name", text("Consulting")), ("price", num("5000"))]);
    assert_eq!(row_cell_text(&item, "price"), "5000");
    assert_eq!(row_cell_text(&item, "missing"), "");
    assert_eq!(row_cell_text(&item, ""), "[object Object]");
    assert_eq!(row_cell_text(&text("plain"), "name"), "plain");
}

#[test]
fn data_entries_drive_row_planning() {
    let data = invoice_data();
    let entries = data_entries(&data);
    assert_eq!(
        entries,
        vec![
            DataEntry { key: s("customer"), is_array: false },
            DataEntry { key: s("invoice"), is_array: false },
            DataEntry { key: s("items"), is_array: true },
        ]
    );
    let exprs = vec![s("items.name"), s("customer.name"), s("items[0].price")];
    let groups = plan_repeating_groups(&entries, &exprs);
    assert_eq!(groups.len(), 1);
    assert_eq!(groups[0].entry, 2);
    assert_eq!(groups[0].prototypes, vec![0, 2]);
    assert!(data_entries(&text("x")).is_empty());
}

#[test]
fn appended_conversions_leave_settled_results_alone() {
    let data = invoice_data();
    let mut ctx = empty_ctx();
    ctx.amounts.push((s("15000"), s("15000.00 MAD")));
    let before = expect_text(eval_text("currency(invoice.total)", &data, &ctx));
    ctx.amounts.push((s("15000"), s("ignored")));
    ctx.numbers.push((s("1"), Some(s("1.0"))));
    assert_eq!(expect_text(eval_text("currency(invoice.total)", &data, &ctx)), before);
}

#[test]
fn lookups_take_the_first_entry() {
    let data = obj(vec![("k", text("first")), ("k", text("second"))]);
    assert_eq!(expect_text(eval_text("k", &data, &empty_ctx())), "first");
}

#[test]
fn text_helpers_use_the_first_argument() {
    let data = obj(vec![("name", text("  Ada ")), ("n", num("7"))]);
    let ctx = empty_ctx();
    assert_eq!(expect_text(eval_text("trim(name)", &data, &ctx)), "Ada");
    assert_eq!(expect_text(eval_text("uppercase(name, n)", &data, &ctx)), "  ADA ");
    assert_eq!(expect_text(eval_text("lowercase(n)", &data, &ctx)), "7");
}
