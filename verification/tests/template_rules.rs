use pdf_template_core::expression::ExpressionParser;
use pdf_template_core::template::{
    collect_validation_errors, default_delimiters, has_explicit_higher_index, placeholder_handled,
    plan_repeating_groups, row_expression, strip_array_prefix, DataEntry, OverflowMode,
    PlaceholderCheck, PlaceholderOutcome, RepeatingGroup,
};
use pdf_template_core::version;

#[test]
fn version_is_reported() {
    assert_eq!(version(), "0.1.0");
}

#[test]
fn default_delimiters_are_double_braces() {
    assert_eq!(default_delimiters(), ("{{".to_string(), "}}".to_string()));
    assert_eq!(OverflowMode::default(), OverflowMode::Shrink);
}

#[test]
fn strips_first_row_prefixes() {
    assert_eq!(strip_array_prefix("items.0.name", "items"), Some("name"));
    assert_eq!(strip_array_prefix("items[0].name", "items"), Some("name"));
    assert_eq!(strip_array_prefix("items[].name", "items"), Some("name"));
    assert_eq!(strip_array_prefix("items[*]name", "items"), Some("name"));
    assert_eq!(strip_array_prefix("items.name", "items"), Some("name"));
    assert_eq!(strip_array_prefix("items.0", "items"), Some(""));
    assert_eq!(strip_array_prefix("items[0]", "items"), Some(""));
    assert_eq!(strip_array_prefix("items", "items"), Some(""));
    assert_eq!(strip_array_prefix("items.1.name", "items"), Some("1.name"));
    assert_eq!(strip_array_prefix("itemsX", "items"), None);
    assert_eq!(strip_array_prefix("items[1].name", "items"), None);
    assert_eq!(strip_array_prefix("other.name", "items"), None);
}

#[test]
fn detects_higher_row_indices() {
    assert!(has_explicit_higher_index("items.1.name", "items"));
    assert!(has_explicit_higher_index("items[2].name", "items"));
    assert!(!has_explicit_higher_index("items.0.name", "items"));
    assert!(!has_explicit_higher_index("items[0]", "items"));
    assert!(!has_explicit_higher_index("items.name", "items"));
    assert!(!has_explicit_higher_index("other.1", "items"));
}

#[test]
fn plans_repeating_rows() {
    let entries = vec![
        DataEntry { key: "customer".to_string(), is_array: false },
        DataEntry { key: "items".to_string(), is_array: true },
        DataEntry { key: "rows".to_string(), is_array: true },
        DataEntry { key: "tags".to_string(), is_array: true },
    ];
    let exprs: Vec<String> = ["customer.name", "items.0.name", "items[0].price", "rows.0.a", "rows.1.a"]
        .iter()
        .map(|s| s.to_string())
        .collect();
    let groups = plan_repeating_groups(&entries, &exprs);
    assert_eq!(groups, vec![RepeatingGroup { entry: 1, prototypes: vec![1, 2] }]);
    assert!(placeholder_handled(&groups, 1));
    assert!(placeholder_handled(&groups, 2));
    assert!(!placeholder_handled(&groups, 0));
    assert!(!placeholder_handled(&groups, 3));
}

#[test]
fn names_generated_rows() {
    assert_eq!(row_expression("items", 2, "name"), "items.2.name");
    assert_eq!(row_expression("items", 10, ""), "items.10.");
}

#[test]
fn validation_without_text_layer_reports_unsupported_pdf() {
    let (valid, errors) = collect_validation_errors(false, &vec![]);
    assert!(!valid);
    assert_eq!(errors.len(), 1);
    assert_eq!(errors[0].error_type, "UNSUPPORTED_PDF");
    assert_eq!(errors[0].message, "Template contains no selectable text. OCR is required for scanned PDFs.");
    assert_eq!(errors[0].expression, None);
}

#[test]
fn validation_reports_each_problem_in_order() {
    let bad = ExpressionParser::parse_expression("a.").unwrap_err();
    let checks = vec![
        PlaceholderCheck { expression: "ok".to_string(), page: 0, outcome: PlaceholderOutcome::Fits },
        PlaceholderCheck {
            expression: "customer.email".to_string(),
            page: 0,
            outcome: PlaceholderOutcome::MissingVariable,
        },
        PlaceholderCheck { expression: "a.".to_string(), page: 1, outcome: PlaceholderOutcome::InvalidExpression(bad) },
        PlaceholderCheck {
            expression: "val".to_string(),
            page: 2,
            outcome: PlaceholderOutcome::Overflow("too wide".to_string()),
        },
    ];
    let (valid, errors) = collect_validation_errors(true, &checks);
    assert!(!valid);
    assert_eq!(errors.len(), 3);
    assert_eq!(errors[0].error_type, "MISSING_VARIABLE");
    assert_eq!(errors[0].message, "Variable \"customer.email\" was not found");
    assert_eq!(errors[0].expression, Some("customer.email".to_string()));
    assert_eq!(errors[0].page, Some(0));
    assert_eq!(errors[1].error_type, "INVALID_EXPRESSION");
    assert_eq!(errors[1].message, "Malformed expression: InvalidExpressionError in \"a.\": Expected identifier");
    assert_eq!(errors[1].page, Some(1));
    assert_eq!(errors[2].error_type, "OVERFLOW");
    assert_eq!(errors[2].message, "too wide");
    let (valid, errors) = collect_validation_errors(true, &checks[..1].to_vec());
    assert!(valid);
    assert!(errors.is_empty());
}
