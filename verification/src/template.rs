//! Template-level rules: array row placeholders, delimiters, overflow modes
//! and validation diagnostics.
use vstd::prelude::*;
use crate::json::{JsonModel, JsonValue, display, json_view, lemma_members_view, members_view, value_to_string};
use crate::evaluate::{member_value, table_get};

verus! {

/// Whether `s` starts with `p`.
pub open spec fn starts_with(s: Seq<char>, p: Seq<char>) -> bool {
    p.len() <= s.len() && s.subrange(0, p.len() as int) == p
}

/// `s` without a leading `.`, if it has one.
pub open spec fn skip_optional_dot(s: Seq<char>) -> Seq<char> {
    if s.len() > 0 && s[0] == '.' {
        s.subrange(1, s.len() as int)
    } else {
        s
    }
}

/// The field path of a placeholder relative to an array key: for key
/// `items`, `items.0.name`, `items[0].name`, `items[].name`,
/// `items[*].name` and `items.name` all give `name`; `items`, `items.0` and
/// `items[0]` give the empty path; anything else gives `None`.
pub open spec fn strip_array_prefix_spec(expr: Seq<char>, key: Seq<char>) -> Option<Seq<char>> {
    if !starts_with(expr, key) {
        None
    } else {
        let rest = expr.subrange(key.len() as int, expr.len() as int);
        if rest.len() >= 1 && rest[0] == '.' {
            let after_dot = rest.subrange(1, rest.len() as int);
            if after_dot.len() >= 2 && after_dot[0] == '0' && after_dot[1] == '.' {
                Some(after_dot.subrange(2, after_dot.len() as int))
            } else if after_dot.len() == 1 && after_dot[0] == '0' {
                Some(Seq::empty())
            } else {
                Some(after_dot)
            }
        } else if rest.len() >= 2 && rest[0] == '[' && rest[1] == ']' {
            Some(skip_optional_dot(rest.subrange(2, rest.len() as int)))
        } else if rest.len() >= 3 && rest[0] == '[' && rest[1] == '*' && rest[2] == ']' {
            Some(skip_optional_dot(rest.subrange(3, rest.len() as int)))
        } else if rest.len() >= 3 && rest[0] == '[' && rest[1] == '0' && rest[2] == ']' {
            Some(skip_optional_dot(rest.subrange(3, rest.len() as int)))
        } else if rest.len() == 0 {
            Some(Seq::empty())
        } else {
            None
        }
    }
}

/// Placeholders of an array's first row name their field after one of the
/// prefixes `key.0.`, `key[0].`, `key[].` or `key[*].`, or after `key.`
/// when the field does not itself begin with the row `0`; the field path
/// is then exactly the text after the prefix. The key alone names the row
/// item itself.
pub proof fn law_first_row_prefixes(key: Seq<char>, f: Seq<char>)
    ensures
        strip_array_prefix_spec(key + seq!['.', '0', '.'] + f, key) == Some(f),
        strip_array_prefix_spec(key + seq!['[', '0', ']', '.'] + f, key) == Some(f),
        strip_array_prefix_spec(key + seq!['[', ']', '.'] + f, key) == Some(f),
        strip_array_prefix_spec(key + seq!['[', '*', ']', '.'] + f, key) == Some(f),
        !(f.len() >= 2 && f[0] == '0' && f[1] == '.') && !(f.len() == 1 && f[0] == '0') ==> strip_array_prefix_spec(
            key + seq!['.'] + f,
            key,
        ) == Some(f),
        strip_array_prefix_spec(key, key) == Some(Seq::<char>::empty()),
{
    let k = key.len() as int;
    let e1 = key + seq!['.', '0', '.'] + f;
    assert(e1.subrange(0, k) =~= key);
    assert(e1.subrange(k, e1.len() as int).subrange(1, e1.len() - k).subrange(2, e1.len() - k - 1) =~= f);
    let e2 = key + seq!['[', '0', ']', '.'] + f;
    assert(e2.subrange(0, k) =~= key);
    assert(e2.subrange(k, e2.len() as int).subrange(3, e2.len() - k).subrange(1, e2.len() - k - 3) =~= f);
    let e3 = key + seq!['[', ']', '.'] + f;
    assert(e3.subrange(0, k) =~= key);
    assert(e3.subrange(k, e3.len() as int).subrange(2, e3.len() - k).subrange(1, e3.len() - k - 2) =~= f);
    let e4 = key + seq!['[', '*', ']', '.'] + f;
    assert(e4.subrange(0, k) =~= key);
    assert(e4.subrange(k, e4.len() as int).subrange(3, e4.len() - k).subrange(1, e4.len() - k - 3) =~= f);
    let e5 = key + seq!['.'] + f;
    assert(e5.subrange(0, k) =~= key);
    assert(e5.subrange(k, e5.len() as int).subrange(1, e5.len() - k) =~= f);
    assert(key.subrange(0, k) =~= key);
    assert(key.subrange(k, k) =~= Seq::<char>::empty());
}

pub open spec fn is_nonzero_digit(c: char) -> bool {
    '1' <= c && c <= '9'
}

/// Whether a placeholder names an array row other than the first:
/// `items.N...` or `items[N...` with `N` starting with a digit 1 to 9.
pub open spec fn has_explicit_higher_index_spec(expr: Seq<char>, key: Seq<char>) -> bool {
    starts_with(expr, key) && {
        let rest = expr.subrange(key.len() as int, expr.len() as int);
        rest.len() >= 2 && (rest[0] == '.' || rest[0] == '[') && is_nonzero_digit(rest[1])
    }
}

fn starts_with_exec(s: &Vec<char>, p: &Vec<char>) -> (b: bool)
    ensures
        b == starts_with(s@, p@),
{
    if p.len() > s.len() {
        return false;
    }
    let mut i: usize = 0;
    while i < p.len()
        invariant
            p@.len() <= s@.len(),
            i <= p@.len(),
            forall|j: int| 0 <= j < i ==> s@[j] == p@[j],
        decreases p@.len() - i,
    {
        if s[i] != p[i] {
            assert(s@.subrange(0, p@.len() as int)[i as int] != p@[i as int]);
            return false;
        }
        i = i + 1;
    }
    assert(s@.subrange(0, p@.len() as int) =~= p@);
    true
}

/// The field path of `expr` below the array `array_key`, if `expr` is a
/// placeholder of that array's first row (see [`strip_array_prefix_spec`]).
pub fn strip_array_prefix<'a>(expr: &'a str, array_key: &str) -> (r: Option<&'a str>)
    ensures
        match strip_array_prefix_spec(expr@, array_key@) {
            Some(f) => r matches Some(x) && x@ == f,
            None => r is None,
        },
{
    let e = crate::text::chars_of(expr);
    let k = crate::text::chars_of(array_key);
    if !starts_with_exec(&e, &k) {
        return None;
    }
    let n = e.len();
    let s = k.len();
    let ghost rest = e@.subrange(s as int, n as int);
    let m = n - s;
    if m >= 1 && e[s] == '.' {
        if m >= 3 && e[s + 1] == '0' && e[s + 2] == '.' {
            return Some(expr.substring_char(s + 3, n));
        } else if m == 2 && e[s + 1] == '0' {
            return Some(expr.substring_char(n, n));
        } else {
            return Some(expr.substring_char(s + 1, n));
        }
    }
    let mut skip: usize = 0;
    if m >= 2 && e[s] == '[' && e[s + 1] == ']' {
        skip = 2;
    } else if m >= 3 && e[s] == '[' && e[s + 1] == '*' && e[s + 2] == ']' {
        skip = 3;
    } else if m >= 3 && e[s] == '[' && e[s + 1] == '0' && e[s + 2] == ']' {
        skip = 3;
    }
    if skip > 0 {
        let from = s + skip;
        if from < n && e[from] == '.' {
            return Some(expr.substring_char(from + 1, n));
        }
        return Some(expr.substring_char(from, n));
    }
    if m == 0 {
        return Some(expr.substring_char(n, n));
    }
    None
}

/// Whether `expr` addresses a row of `array_key` after the first.
pub fn has_explicit_higher_index(expr: &str, array_key: &str) -> (b: bool)
    ensures
        b == has_explicit_higher_index_spec(expr@, array_key@),
{
    let e = crate::text::chars_of(expr);
    let k = crate::text::chars_of(array_key);
    if !starts_with_exec(&e, &k) {
        return false;
    }
    let s = k.len();
    let n = e.len();
    if n - s >= 2 && (e[s] == '.' || e[s] == '[') && '1' <= e[s + 1] && e[s + 1] <= '9' {
        return true;
    }
    false
}

} // verus!

verus! {

/// Indices `i < n` (ascending) of the expressions that are first-row
/// placeholders of the array `key`.
pub open spec fn prototype_indices(exprs: Seq<Seq<char>>, key: Seq<char>, n: int) -> Seq<usize>
    decreases n,
{
    if n <= 0 {
        Seq::empty()
    } else if strip_array_prefix_spec(exprs[n - 1], key) is Some {
        prototype_indices(exprs, key, n - 1).push((n - 1) as usize)
    } else {
        prototype_indices(exprs, key, n - 1)
    }
}

/// Whether some expression addresses a row of `key` after the first.
pub open spec fn any_higher_index(exprs: Seq<Seq<char>>, key: Seq<char>) -> bool {
    exists|i: int| 0 <= i < exprs.len() && has_explicit_higher_index_spec(#[trigger] exprs[i], key)
}

/// Repeating-row groups among the first `n` data entries `(key, is_array)`:
/// for each array whose placeholders only address its first row and that has
/// at least one such placeholder, the entry's index and those placeholders'
/// indices.
pub open spec fn repeating_groups(entries: Seq<(Seq<char>, bool)>, exprs: Seq<Seq<char>>, n: int) -> Seq<(usize, Seq<usize>)>
    decreases n,
{
    if n <= 0 {
        Seq::empty()
    } else {
        let prev = repeating_groups(entries, exprs, n - 1);
        let (key, is_array) = entries[n - 1];
        let protos = prototype_indices(exprs, key, exprs.len() as int);
        if is_array && !any_higher_index(exprs, key) && protos.len() > 0 {
            prev.push(((n - 1) as usize, protos))
        } else {
            prev
        }
    }
}

/// A data entry for row planning: its key and whether its value is an array.
#[derive(Clone, Debug, PartialEq)]
pub struct DataEntry {
    pub key: String,
    pub is_array: bool,
}

/// A group of placeholders repeated once per element of an array.
#[derive(Clone, Debug, PartialEq)]
pub struct RepeatingGroup {
    /// Index of the array's entry in the data entries.
    pub entry: usize,
    /// Indices of the placeholders that form one row, ascending.
    pub prototypes: Vec<usize>,
}

pub open spec fn entries_view(entries: Seq<DataEntry>) -> Seq<(Seq<char>, bool)> {
    entries.map_values(|e: DataEntry| (e.key@, e.is_array))
}

pub open spec fn strings_view(v: Seq<String>) -> Seq<Seq<char>> {
    v.map_values(|s: String| s@)
}

pub open spec fn groups_view(g: Seq<RepeatingGroup>) -> Seq<(usize, Seq<usize>)> {
    g.map_values(|x: RepeatingGroup| (x.entry, x.prototypes@))
}

fn prototype_indices_exec(exprs: &Vec<String>, key: &str) -> (r: Vec<usize>)
    ensures
        r@ == prototype_indices(strings_view(exprs@), key@, exprs@.len() as int),
{
    let mut r: Vec<usize> = Vec::new();
    let mut i: usize = 0;
    while i < exprs.len()
        invariant
            i <= exprs@.len(),
            r@ == prototype_indices(strings_view(exprs@), key@, i as int),
        decreases exprs@.len() - i,
    {
        if strip_array_prefix(exprs[i].as_str(), key).is_some() {
            r.push(i);
        }
        i = i + 1;
    }
    r
}

fn any_higher_index_exec(exprs: &Vec<String>, key: &str) -> (b: bool)
    ensures
        b == any_higher_index(strings_view(exprs@), key@),
{
    let mut i: usize = 0;
    while i < exprs.len()
        invariant
            i <= exprs@.len(),
            forall|j: int| 0 <= j < i ==> !has_explicit_higher_index_spec(#[trigger] strings_view(exprs@)[j], key@),
        decreases exprs@.len() - i,
    {
        if has_explicit_higher_index(exprs[i].as_str(), key) {
            assert(has_explicit_higher_index_spec(strings_view(exprs@)[i as int], key@));
            return true;
        }
        i = i + 1;
    }
    false
}

/// Finds the arrays of the data whose placeholders form repeating rows, in
/// the order of the entries. Each placeholder index that appears in a group
/// is rendered once per array element instead of as a plain placeholder.
pub fn plan_repeating_groups(entries: &Vec<DataEntry>, exprs: &Vec<String>) -> (r: Vec<RepeatingGroup>)
    ensures
        groups_view(r@) == repeating_groups(entries_view(entries@), strings_view(exprs@), entries@.len() as int),
{
    let mut r: Vec<RepeatingGroup> = Vec::new();
    let mut j: usize = 0;
    while j < entries.len()
        invariant
            j <= entries@.len(),
            groups_view(r@) == repeating_groups(entries_view(entries@), strings_view(exprs@), j as int),
        decreases entries@.len() - j,
    {
        let entry = &entries[j];
        if entry.is_array && !any_higher_index_exec(exprs, entry.key.as_str()) {
            let protos = prototype_indices_exec(exprs, entry.key.as_str());
            if protos.len() > 0 {
                let ghost before = r@;
                let ghost pv = protos@;
                r.push(RepeatingGroup { entry: j, prototypes: protos });
                assert(groups_view(r@) =~= groups_view(before).push((j, pv)));
            }
        }
        j = j + 1;
    }
    r
}

/// Whether placeholder `i` belongs to one of the groups.
pub open spec fn handled_by_groups(groups: Seq<(usize, Seq<usize>)>, i: usize) -> bool {
    exists|g: int| 0 <= g < groups.len() && #[trigger] groups[g].1.contains(i)
}

/// Expression naming field `field` of row `row` of array `key`:
/// `key.row.field`.
pub open spec fn row_expression_spec(key: Seq<char>, row: nat, field: Seq<char>) -> Seq<char> {
    key + seq!['.'] + crate::text::decimal(row) + seq!['.'] + field
}

/// The expression of a generated row placeholder: `key.row.field`.
pub fn row_expression(key: &str, row: usize, field: &str) -> (r: String)
    ensures
        r@ == row_expression_spec(key@, row as nat, field@),
{
    let mut r = crate::text::to_owned_string(key);
    crate::text::string_push(&mut r, '.');
    crate::text::push_decimal(&mut r, row);
    crate::text::string_push(&mut r, '.');
    r.append(field);
    r
}

/// The data entries `(key, value is an array)` of a data object, in its
/// order; none for other data.
pub open spec fn data_entries_spec(data: JsonModel) -> Seq<(Seq<char>, bool)> {
    match data {
        JsonModel::Object(ms) => Seq::new(ms.len(), |i: int| (ms[i].0, ms[i].1 is Array)),
        _ => Seq::empty(),
    }
}

/// The data entries that row planning reads (see [`data_entries_spec`]).
pub fn data_entries(data: &JsonValue) -> (r: Vec<DataEntry>)
    ensures
        entries_view(r@) == data_entries_spec(data@),
{
    let mut r: Vec<DataEntry> = Vec::new();
    match data {
        JsonValue::Object(members) => {
            proof {
                lemma_members_view(members@);
            }
            let mut i: usize = 0;
            while i < members.len()
                invariant
                    i <= members.len(),
                    *data == JsonValue::Object(*members),
                    members_view(members@).len() == members.len(),
                    forall|k: int| 0 <= k < members.len() ==> #[trigger] members_view(members@)[k] == (
                        members@[k].0@,
                        json_view(members@[k].1),
                    ),
                    entries_view(r@) =~= data_entries_spec(data@).take(i as int),
                decreases members.len() - i,
            {
                let is_array = match &members[i].1 {
                    JsonValue::Array(_) => true,
                    _ => false,
                };
                let ghost prev = r@;
                r.push(DataEntry { key: members[i].0.clone(), is_array });
                proof {
                    let spec = data_entries_spec(data@);
                    assert((json_view(members@[i as int].1) is Array) == is_array);
                    assert(spec[i as int] == (members@[i as int].0@, is_array));
                    assert(entries_view(r@) =~= entries_view(prev).push((members@[i as int].0@, is_array)));
                    assert(spec.take(i as int + 1) =~= spec.take(i as int).push(spec[i as int]));
                }
                i = i + 1;
            }
        },
        _ => {},
    }
    r
}

/// Text of a row cell: the field `field` of a row's item, or the item
/// itself where the field is empty or the item is no object; a missing
/// field gives the empty text.
pub open spec fn row_cell_spec(item: JsonModel, field: Seq<char>) -> Seq<char> {
    if field.len() == 0 {
        display(item)
    } else {
        match item {
            JsonModel::Object(ms) => match table_get(ms, field) {
                Some(v) => display(v),
                None => Seq::empty(),
            },
            _ => display(item),
        }
    }
}

/// The text of a repeated row's cell (see [`row_cell_spec`]).
pub fn row_cell_text(item: &JsonValue, field: &str) -> (r: String)
    ensures
        r@ == row_cell_spec(item@, field@),
{
    if field.is_empty() {
        return value_to_string(item);
    }
    match item {
        JsonValue::Object(_) => match member_value(item, &crate::text::to_owned_string(field)) {
            Some(v) => value_to_string(&v),
            None => String::new(),
        },
        _ => value_to_string(item),
    }
}

} // verus!

verus! {

/// Whether placeholder `i` belongs to one of the repeating groups.
#[verifier::loop_isolation(false)]
pub fn placeholder_handled(groups: &Vec<RepeatingGroup>, i: usize) -> (b: bool)
    ensures
        b == handled_by_groups(groups_view(groups@), i),
{
    let mut g: usize = 0;
    while g < groups.len()
        invariant
            g <= groups@.len(),
            forall|h: int| 0 <= h < g ==> !(#[trigger] groups_view(groups@)[h]).1.contains(i),
        decreases groups@.len() - g,
    {
        let protos = &groups[g].prototypes;
        let mut k: usize = 0;
        while k < protos.len()
            invariant
                k <= protos@.len(),
                forall|m: int| 0 <= m < k ==> protos@[m] != i,
            decreases protos@.len() - k,
        {
            if protos[k] == i {
                assert(groups_view(groups@)[g as int].1 == protos@);
                assert(protos@[k as int] == i);
                assert(groups_view(groups@)[g as int].1.contains(i));
                return true;
            }
            k = k + 1;
        }
        assert(groups_view(groups@)[g as int].1 == protos@);
        assert(!groups_view(groups@)[g as int].1.contains(i));
        g = g + 1;
    }
    false
}

/// How text wider than its placeholder is handled.
#[derive(Clone, Copy, Debug, PartialEq, Eq, Structural)]
pub enum OverflowMode {
    /// Scale the font down to fit, not below the minimum font size.
    Shrink,
    /// Keep the font size and clip at the placeholder's box.
    Clip,
    /// Break the text into lines.
    Wrap,
    /// Report an overflow error.
    Error,
}

impl Default for OverflowMode {
    fn default() -> (m: Self)
        ensures
            m == OverflowMode::Shrink,
    {
        OverflowMode::Shrink
    }
}

/// The default placeholder delimiters, `{{` and `}}`.
pub fn default_delimiters() -> (d: (String, String))
    ensures
        d.0@ == "{{"@,
        d.1@ == "}}"@,
{
    (String::from_str("{{"), String::from_str("}}"))
}

/// A problem found when validating a template against data.
#[derive(Clone, Debug, PartialEq)]
pub struct ValidationError {
    pub error_type: String,
    pub message: String,
    pub expression: Option<String>,
    pub page: Option<usize>,
}

/// Mathematical model of a [`ValidationError`].
pub struct ValidationErrorModel {
    pub error_type: Seq<char>,
    pub message: Seq<char>,
    pub expression: Option<Seq<char>>,
    pub page: Option<usize>,
}

impl View for ValidationError {
    type V = ValidationErrorModel;

    open spec fn view(&self) -> ValidationErrorModel {
        ValidationErrorModel {
            error_type: self.error_type@,
            message: self.message@,
            expression: match self.expression {
                Some(e) => Some(e@),
                None => None,
            },
            page: self.page,
        }
    }
}

/// What happened when a placeholder was checked.
#[derive(Clone, Debug, PartialEq)]
pub enum PlaceholderOutcome {
    /// The value was found and fits.
    Fits,
    /// The expression does not parse.
    InvalidExpression(crate::expression::ExpressionError),
    /// The expression names no value in the data.
    MissingVariable,
    /// The value does not fit; the text describes the overflow.
    Overflow(String),
}

/// One checked placeholder: its expression, its page and the outcome.
#[derive(Clone, Debug, PartialEq)]
pub struct PlaceholderCheck {
    pub expression: String,
    pub page: usize,
    pub outcome: PlaceholderOutcome,
}

/// The diagnostic for one checked placeholder, if any.
pub open spec fn check_error(c: PlaceholderCheck) -> Option<ValidationErrorModel> {
    match c.outcome {
        PlaceholderOutcome::Fits => None,
        PlaceholderOutcome::InvalidExpression(e) => Some(
            ValidationErrorModel {
                error_type: "INVALID_EXPRESSION"@,
                message: "Malformed expression: "@ + crate::expression::describe_spec(e.expression@, e.message@),
                expression: Some(c.expression@),
                page: Some(c.page),
            },
        ),
        PlaceholderOutcome::MissingVariable => Some(
            ValidationErrorModel {
                error_type: "MISSING_VARIABLE"@,
                message: "Variable \""@ + c.expression@ + "\" was not found"@,
                expression: Some(c.expression@),
                page: Some(c.page),
            },
        ),
        PlaceholderOutcome::Overflow(m) => Some(
            ValidationErrorModel {
                error_type: "OVERFLOW"@,
                message: m@,
                expression: Some(c.expression@),
                page: Some(c.page),
            },
        ),
    }
}

/// Diagnostics of the first `n` checks, in order.
pub open spec fn check_errors(checks: Seq<PlaceholderCheck>, n: int) -> Seq<ValidationErrorModel>
    decreases n,
{
    if n <= 0 {
        Seq::empty()
    } else {
        match check_error(checks[n - 1]) {
            Some(e) => check_errors(checks, n - 1).push(e),
            None => check_errors(checks, n - 1),
        }
    }
}

/// The diagnostic for a template without a text layer.
pub open spec fn unsupported_pdf_error() -> ValidationErrorModel {
    ValidationErrorModel {
        error_type: "UNSUPPORTED_PDF"@,
        message: "Template contains no selectable text. OCR is required for scanned PDFs."@,
        expression: None,
        page: None,
    }
}

pub open spec fn errors_view(v: Seq<ValidationError>) -> Seq<ValidationErrorModel> {
    v.map_values(|e: ValidationError| e@)
}

fn check_to_error(c: &PlaceholderCheck) -> (r: Option<ValidationError>)
    ensures
        match check_error(*c) {
            Some(m) => r matches Some(e) && e@ == m,
            None => r is None,
        },
{
    match &c.outcome {
        PlaceholderOutcome::Fits => None,
        PlaceholderOutcome::InvalidExpression(e) => {
            let mut message = String::from_str("Malformed expression: ");
            let d = e.describe();
            message.append(d.as_str());
            Some(
                ValidationError {
                    error_type: String::from_str("INVALID_EXPRESSION"),
                    message,
                    expression: Some(c.expression.clone()),
                    page: Some(c.page),
                },
            )
        },
        PlaceholderOutcome::MissingVariable => {
            let mut message = String::from_str("Variable \"");
            message.append(c.expression.as_str());
            message.append("\" was not found");
            Some(
                ValidationError {
                    error_type: String::from_str("MISSING_VARIABLE"),
                    message,
                    expression: Some(c.expression.clone()),
                    page: Some(c.page),
                },
            )
        },
        PlaceholderOutcome::Overflow(m) => Some(
            ValidationError {
                error_type: String::from_str("OVERFLOW"),
                message: m.clone(),
                expression: Some(c.expression.clone()),
                page: Some(c.page),
            },
        ),
    }
}

/// Diagnostics of a validation run: for a template without a text layer,
/// the single `UNSUPPORTED_PDF` error; otherwise one error per placeholder
/// that does not parse (`INVALID_EXPRESSION`), names no value
/// (`MISSING_VARIABLE`) or does not fit (`OVERFLOW`), in order. The result
/// is valid exactly when there is no error.
pub fn collect_validation_errors(has_text_layer: bool, checks: &Vec<PlaceholderCheck>) -> (r: (bool, Vec<ValidationError>))
    ensures
        !has_text_layer ==> errors_view(r.1@) == seq![unsupported_pdf_error()],
        has_text_layer ==> errors_view(r.1@) == check_errors(checks@, checks@.len() as int),
        r.0 == (r.1@.len() == 0),
{
    let mut errors: Vec<ValidationError> = Vec::new();
    if !has_text_layer {
        errors.push(
            ValidationError {
                error_type: String::from_str("UNSUPPORTED_PDF"),
                message: String::from_str(
                    "Template contains no selectable text. OCR is required for scanned PDFs.",
                ),
                expression: None,
                page: None,
            },
        );
        assert(errors_view(errors@) =~= seq![unsupported_pdf_error()]);
        return (false, errors);
    }
    let mut i: usize = 0;
    while i < checks.len()
        invariant
            i <= checks@.len(),
            errors_view(errors@) == check_errors(checks@, i as int),
        decreases checks@.len() - i,
    {
        match check_to_error(&checks[i]) {
            Some(e) => {
                let ghost before = errors@;
                errors.push(e);
                assert(errors_view(errors@) =~= errors_view(before).push(e@));
            },
            None => {},
        }
        i = i + 1;
    }
    let valid = errors.len() == 0;
    (valid, errors)
}

} // verus!
