use pdf_template_core::detect::{locate_char, span_refs, SpanMatchRef, SpanMatcher, SpanText};
use pdf_template_core::operators::{operator_kind, OperatorKind};
use pdf_template_core::metrics::{
    advance_source, is_monospace_font, standard_helvetica_advance, width_index, AdvanceSource,
};
use pdf_template_core::rewrite::{
    excise_placeholders, plan_removals, slice_bytes_in_place, text_operand, OpStrings, TextOperand,
};

#[test]
fn finds_placeholders_with_default_delimiters() {
    let m = SpanMatcher::new("{{", "}}");
    let found = m.find_placeholders_in_line("Customer: {{customer.name}} and {{ customer.email }}");
    assert_eq!(found.len(), 2);
    assert_eq!(found[0].open_char, 10);
    assert_eq!(found[0].close_char, 27);
    assert_eq!(found[0].raw, "{{customer.name}}");
    assert_eq!(found[0].expression, "customer.name");
    assert_eq!(found[1].expression, "customer.email");
    assert_eq!(found[1].raw, "{{ customer.email }}");
}

#[test]
fn finds_placeholders_with_custom_delimiters() {
    let m = SpanMatcher::new("[[", "]]");
    let found = m.find_placeholders_in_line("Hello [[user.name]] {{x}}");
    assert_eq!(found.len(), 1);
    assert_eq!(found[0].expression, "user.name");
}

#[test]
fn skips_empty_and_unclosed_placeholders() {
    let m = SpanMatcher::new("{{", "}}");
    assert!(m.find_placeholders_in_line("{{  }} then {{open").is_empty());
    let found = m.find_placeholders_in_line("{{ }}{{a}}");
    assert_eq!(found.len(), 1);
    assert_eq!(found[0].expression, "a");
    assert_eq!(found[0].open_char, 5);
}

#[test]
fn positions_count_characters_in_accented_lines() {
    let m = SpanMatcher::new("{{", "}}");
    let found = m.find_placeholders_in_line("Café {{x}}");
    assert_eq!(found.len(), 1);
    assert_eq!(found[0].expression, "x");
    assert_eq!(found[0].raw, "{{x}}");
    assert_eq!(found[0].open_char, 5);
    assert_eq!(found[0].close_char, 10);
    let counts = vec![10];
    assert_eq!(locate_char(&counts, found[0].open_char), Some((0, 5)));
    assert_eq!(locate_char(&counts, found[0].close_char - 1), Some((0, 9)));
    let spans = vec![SpanText {
        op_index: 0,
        sub_index: None,
        char_count: 10,
        byte_len: 11,
        char_byte_ranges: vec![(0, 1), (1, 2), (2, 3), (3, 5), (5, 6), (6, 7), (7, 8), (8, 9), (9, 10), (10, 11)],
    }];
    let refs = span_refs(&spans, 0, 5, 0, 9);
    assert_eq!(refs.len(), 1);
    assert_eq!((refs[0].start_char, refs[0].end_char, refs[0].byte_start, refs[0].byte_end), (5, 10, 6, 11));
}

fn span(op: usize, sub: Option<usize>, text: &str) -> SpanText {
    let mut ranges = Vec::new();
    let mut b = 0;
    for c in text.chars() {
        ranges.push((b, b + c.len_utf8()));
        b += c.len_utf8();
    }
    SpanText { op_index: op, sub_index: sub, char_count: text.chars().count(), byte_len: text.len(), char_byte_ranges: ranges }
}

#[test]
fn computes_references_across_split_spans() {
    let spans = vec![span(3, Some(0), "Customer: {{cust"), span(3, Some(2), "omer.name}}")];
    let refs = span_refs(&spans, 0, 10, 1, 10);
    assert_eq!(
        refs,
        vec![
            SpanMatchRef { op_index: 3, sub_index: Some(0), start_char: 10, end_char: 16, byte_start: 10, byte_end: 16 },
            SpanMatchRef { op_index: 3, sub_index: Some(2), start_char: 0, end_char: 11, byte_start: 0, byte_end: 11 },
        ]
    );
    assert!(span_refs(&spans, 1, 0, 0, 0).is_empty());
}

#[test]
fn slices_bytes_with_clamping() {
    let mut v = b"Hello {{x}}!".to_vec();
    slice_bytes_in_place(&mut v, 6, 11);
    assert_eq!(v, b"Hello !".to_vec());
    let mut v = b"abc".to_vec();
    slice_bytes_in_place(&mut v, 1, 100);
    assert_eq!(v, b"a".to_vec());
    let mut v = b"abc".to_vec();
    slice_bytes_in_place(&mut v, 5, 6);
    assert_eq!(v, b"abc".to_vec());
    slice_bytes_in_place(&mut v, 2, 1);
    assert_eq!(v, b"abc".to_vec());
}

fn r(op: usize, sub: Option<usize>, s: usize, e: usize) -> SpanMatchRef {
    SpanMatchRef { op_index: op, sub_index: sub, start_char: 0, end_char: 0, byte_start: s, byte_end: e }
}

#[test]
fn orders_removals_from_last_to_first() {
    let refs = vec![r(1, None, 0, 2), r(3, Some(0), 4, 5), r(3, Some(2), 0, 1), r(1, None, 5, 7), r(3, None, 9, 9), r(1, None, 5, 6)];
    let plan = plan_removals(&refs);
    assert_eq!(
        plan,
        vec![(3, Some(2), 0, 1), (3, Some(0), 4, 5), (3, None, 9, 9), (1, None, 5, 7), (1, None, 5, 6), (1, None, 0, 2)]
    );
}

#[test]
fn names_text_operands() {
    assert_eq!(text_operand("Tj"), TextOperand::First);
    assert_eq!(text_operand("'"), TextOperand::First);
    assert_eq!(text_operand("\""), TextOperand::Third);
    assert_eq!(text_operand("TJ"), TextOperand::ArrayElement);
    assert_eq!(text_operand("Tf"), TextOperand::NoText);
}

#[test]
fn helvetica_widths() {
    assert_eq!(standard_helvetica_advance('A'), 667);
    assert_eq!(standard_helvetica_advance('@'), 1015);
    assert_eq!(standard_helvetica_advance('i'), 222);
    assert_eq!(standard_helvetica_advance('7'), 556);
    assert_eq!(standard_helvetica_advance('é'), 500);
    let total: u32 = "Hello".chars().map(|c| standard_helvetica_advance(c) as u32).sum();
    assert_eq!(total, 667 + 556 + 222 + 222 + 556);
}

#[test]
fn width_lookup_and_monospace() {
    assert_eq!(width_index(65, 32, 126, 95), Some(33));
    assert_eq!(width_index(20, 32, 126, 95), None);
    assert_eq!(width_index(65, 32, 126, 0), None);
    assert_eq!(width_index(126, 32, 126, 10), None);
    assert!(is_monospace_font("Courier-Bold"));
    assert!(is_monospace_font("DejaVuSansMono"));
    assert!(!is_monospace_font("Helvetica"));
}

#[test]
fn excises_placeholder_text_from_split_operations() {
    let mut ops = vec![
        OpStrings::Other,
        OpStrings::Single(Some(b"Hello {{name}}!".to_vec())),
        OpStrings::Elements(vec![Some(b"Customer: {{cust".to_vec()), None, Some(b"omer.name}} ok".to_vec())]),
        OpStrings::Single(None),
    ];
    let refs = vec![
        r(2, Some(0), 10, 16),
        r(1, None, 6, 14),
        r(2, Some(2), 0, 11),
        r(3, None, 0, 4),
        r(9, None, 0, 1),
        r(2, Some(1), 0, 1),
    ];
    excise_placeholders(&mut ops, &refs);
    match &ops[1] {
        OpStrings::Single(Some(b)) => assert_eq!(b, &b"Hello !".to_vec()),
        _ => panic!("the single string stays"),
    }
    match &ops[2] {
        OpStrings::Elements(es) => {
            assert_eq!(es[0], Some(b"Customer: ".to_vec()));
            assert_eq!(es[1], None);
            assert_eq!(es[2], Some(b" ok".to_vec()));
        },
        _ => panic!("the array stays"),
    }
    assert!(matches!(ops[0], OpStrings::Other));
    assert!(matches!(ops[3], OpStrings::Single(None)));
}

#[test]
fn excises_two_placeholders_of_one_string() {
    let mut ops = vec![OpStrings::Single(Some(b"{{a}} and {{b}}".to_vec()))];
    excise_placeholders(&mut ops, &vec![r(0, None, 0, 5), r(0, None, 10, 15)]);
    match &ops[0] {
        OpStrings::Single(Some(b)) => assert_eq!(b, &b" and ".to_vec()),
        _ => panic!("the string stays"),
    }
}

#[test]
fn advance_sources_follow_widths_then_monospace_then_helvetica() {
    assert_eq!(advance_source('A', Some(65), 32, 126, 95, "Helvetica"), AdvanceSource::Widths(33));
    assert_eq!(advance_source('A', Some(65), 32, 126, 10, "Courier-Bold"), AdvanceSource::Monospace);
    assert_eq!(advance_source('é', None, 32, 126, 95, "Helvetica"), AdvanceSource::Standard(500));
    assert_eq!(advance_source('W', Some(87), 0, 0, 0, "Helvetica"), AdvanceSource::Standard(944));
}

#[test]
fn locates_line_characters_in_their_spans() {
    let counts = vec![3, 0, 2, 4];
    assert_eq!(locate_char(&counts, 0), Some((0, 0)));
    assert_eq!(locate_char(&counts, 2), Some((0, 2)));
    assert_eq!(locate_char(&counts, 3), Some((2, 0)));
    assert_eq!(locate_char(&counts, 5), Some((3, 0)));
    assert_eq!(locate_char(&counts, 8), Some((3, 3)));
    assert_eq!(locate_char(&counts, 9), None);
    assert_eq!(locate_char(&vec![], 0), None);
}

#[test]
fn classifies_operators() {
    assert_eq!(operator_kind("q"), OperatorKind::SaveState);
    assert_eq!(operator_kind("Q"), OperatorKind::RestoreState);
    assert_eq!(operator_kind("RG"), OperatorKind::SetRgbColor);
    assert_eq!(operator_kind("G"), OperatorKind::SetGrayColor);
    assert_eq!(operator_kind("k"), OperatorKind::SetCmykColor);
    assert_eq!(operator_kind("ET"), OperatorKind::ResetTextMatrices);
    assert_eq!(operator_kind("T*"), OperatorKind::NextLine);
    assert_eq!(operator_kind("TD"), OperatorKind::MoveTextSetLeading);
    assert_eq!(operator_kind("Td"), OperatorKind::MoveText);
    assert_eq!(operator_kind("'"), OperatorKind::NextLineShowText);
    assert_eq!(operator_kind("\""), OperatorKind::SpacedNextLineShowText);
    assert_eq!(operator_kind("TJ"), OperatorKind::ShowTextArray);
    assert_eq!(operator_kind("re"), OperatorKind::Other);
}

#[test]
fn excision_clamps_ranges_and_ignores_references_to_nothing() {
    let mut ops = vec![
        OpStrings::Single(Some(b"Total {{t}}".to_vec())),
        OpStrings::Elements(vec![Some(b"ab".to_vec()), None]),
    ];
    let refs = vec![
        r(0, None, 6, 40),
        r(1, Some(0), 5, 9),
        r(1, Some(0), 1, 1),
        r(1, Some(1), 0, 3),
        r(1, None, 0, 2),
        r(4, None, 0, 2),
    ];
    excise_placeholders(&mut ops, &refs);
    match &ops[0] {
        OpStrings::Single(Some(b)) => assert_eq!(b, &b"Total ".to_vec()),
        _ => panic!("the string stays"),
    }
    match &ops[1] {
        OpStrings::Elements(es) => assert_eq!(es, &vec![Some(b"ab".to_vec()), None]),
        _ => panic!("the array stays"),
    }
}

#[test]
fn found_placeholders_are_delimited_and_ordered() {
    let m = SpanMatcher::new("<<", ">>");
    let line = "a << x >> b <<y>> <<>> <<z";
    let found = m.find_placeholders_in_line(line);
    assert_eq!(found.len(), 2);
    let chars: Vec<char> = line.chars().collect();
    for p in &found {
        let raw: String = chars[p.open_char..p.close_char].iter().collect();
        assert_eq!(raw, p.raw);
        assert!(p.raw.starts_with("<<") && p.raw.ends_with(">>"));
        assert!(!p.expression.is_empty());
    }
    assert!(found[0].close_char <= found[1].open_char);
    assert_eq!((found[0].expression.as_str(), found[1].expression.as_str()), ("x", "y"));
}
