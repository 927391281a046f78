//! Evaluation of template expressions against JSON data.
//!
//! Two results rest on decimal floating point: the JSON text of a number
//! literal, and the text of a `currency` amount. The evaluator reads both
//! from tables; where an entry is missing it answers with the text whose
//! conversion it needs, and is run again once the entry is there.
use vstd::prelude::*;
use crate::expression::{Expr, ExpressionError, ExpressionParser, SpecExpr, expr_view, exprs_view, parse_expression_spec};
use crate::json::{
    JsonModel, JsonValue, json_view, values_view, members_view, display, value_to_string,
    copy_value, lemma_values_view, lemma_members_view, push_str,
};
use crate::text::{trim, trim_str, lowercase, uppercase, to_lowercase, to_uppercase, to_owned_string, string_push};

verus! {

/// The value recorded for `key` in a table of pairs, searching from `i`:
/// the first entry with that key wins.
pub open spec fn table_get_from<V>(t: Seq<(Seq<char>, V)>, key: Seq<char>, i: int) -> Option<V>
    decreases t.len() - i,
{
    if i < 0 || i >= t.len() {
        None
    } else if t[i].0 == key {
        Some(t[i].1)
    } else {
        table_get_from(t, key, i + 1)
    }
}

pub open spec fn table_get<V>(t: Seq<(Seq<char>, V)>, key: Seq<char>) -> Option<V> {
    table_get_from(t, key, 0)
}

/// The first entry with key `key` is at `j`, or none has it.
pub proof fn lemma_table_get<V>(t: Seq<(Seq<char>, V)>, key: Seq<char>, i: int, j: int)
    requires
        0 <= i <= j <= t.len(),
        forall|k: int| i <= k < j ==> #[trigger] t[k].0 != key,
        j < t.len() ==> t[j].0 == key,
    ensures
        table_get_from(t, key, i) == (if j < t.len() { Some(t[j].1) } else { None::<V> }),
    decreases j - i,
{
    if i < j {
        lemma_table_get(t, key, i + 1, j);
    }
}

pub open spec fn text_table_view(t: Seq<(String, String)>) -> Seq<(Seq<char>, Seq<char>)> {
    Seq::new(t.len(), |i: int| (t[i].0@, t[i].1@))
}

pub open spec fn opt_text_view(o: Option<String>) -> Option<Seq<char>> {
    match o {
        Some(s) => Some(s@),
        None => None,
    }
}

pub open spec fn number_table_view(t: Seq<(String, Option<String>)>) -> Seq<(Seq<char>, Option<Seq<char>>)> {
    Seq::new(t.len(), |i: int| (t[i].0@, opt_text_view(t[i].1)))
}

/// What evaluation reads besides the data: results of helper calls keyed
/// by the call's text, the JSON text of each number literal (`None` where
/// the literal is no finite number), and the text of each currency amount.
pub struct EnvModel {
    pub helpers: Seq<(Seq<char>, Seq<char>)>,
    pub numbers: Seq<(Seq<char>, Option<Seq<char>>)>,
    pub amounts: Seq<(Seq<char>, Seq<char>)>,
}

/// Result of evaluating an expression: a value, no value, or the text of
/// a number literal or of an amount whose conversion is not in the tables.
pub enum Outcome {
    Value(Option<JsonModel>),
    NeedNumber(Seq<char>),
    NeedAmount(Seq<char>),
}

/// Result of evaluating the arguments of a call, left to right.
pub enum ArgsOutcome {
    Values(Seq<JsonModel>),
    Missing,
    Pending(Outcome),
}

/// The member `key` of an object; nothing for other values.
pub open spec fn member_of(v: JsonModel, key: Seq<char>) -> Option<JsonModel> {
    match v {
        JsonModel::Object(ms) => table_get(ms, key),
        _ => None,
    }
}

/// Element `i` of an array; nothing for other values or out of range.
pub open spec fn element_of(v: JsonModel, i: usize) -> Option<JsonModel> {
    match v {
        JsonModel::Array(items) => if i < items.len() { Some(items[i as int]) } else { None },
        _ => None,
    }
}

/// Texts of the values, separated by commas.
pub open spec fn join_display(vs: Seq<JsonModel>) -> Seq<char>
    decreases vs.len(),
{
    if vs.len() == 0 {
        Seq::empty()
    } else if vs.len() == 1 {
        display(vs[0])
    } else {
        join_display(vs.drop_last()) + seq![','] + display(vs.last())
    }
}

/// The text under which a helper call's result is looked up:
/// `name(arg1,arg2,...)` with the texts of the argument values.
pub open spec fn helper_key(name: Seq<char>, vs: Seq<JsonModel>) -> Seq<char> {
    name + seq!['('] + join_display(vs) + seq![')']
}

/// The text a currency amount is read from: a number's JSON text, a
/// string itself, and nothing for other values.
pub open spec fn amount_source(v: JsonModel) -> Seq<char> {
    match v {
        JsonModel::Number(t) => t,
        JsonModel::Str(s) => s,
        _ => Seq::empty(),
    }
}

/// The built-in helpers `uppercase`, `lowercase`, `trim` and `currency`,
/// applied to the first argument; any other name, or no argument, gives
/// no value.
pub open spec fn apply_builtin(name: Seq<char>, vs: Seq<JsonModel>, env: EnvModel) -> Outcome {
    if vs.len() == 0 {
        Outcome::Value(None)
    } else if name == "uppercase"@ {
        Outcome::Value(Some(JsonModel::Str(uppercase(display(vs[0])))))
    } else if name == "lowercase"@ {
        Outcome::Value(Some(JsonModel::Str(lowercase(display(vs[0])))))
    } else if name == "trim"@ {
        Outcome::Value(Some(JsonModel::Str(trim(display(vs[0])))))
    } else if name == "currency"@ {
        match table_get(env.amounts, amount_source(vs[0])) {
            Some(a) => Outcome::Value(Some(JsonModel::Str(a))),
            None => Outcome::NeedAmount(amount_source(vs[0])),
        }
    } else {
        Outcome::Value(None)
    }
}

/// Value of an expression in `data`: an identifier is a member of the
/// data object, `.name` a member, `[i]` an array element, a call first
/// looks its text up among the helpers and then applies a built-in. A
/// call has a value only where every argument has one.
pub open spec fn eval_spec(e: SpecExpr, data: JsonModel, env: EnvModel) -> Outcome
    decreases e,
{
    match e {
        SpecExpr::Ident(name) => Outcome::Value(member_of(data, name)),
        SpecExpr::StringLit(s) => Outcome::Value(Some(JsonModel::Str(s))),
        SpecExpr::NumberLit(t) => match table_get(env.numbers, t) {
            Some(Some(n)) => Outcome::Value(Some(JsonModel::Number(n))),
            Some(None) => Outcome::Value(None),
            None => Outcome::NeedNumber(t),
        },
        SpecExpr::Member(target, prop) => match eval_spec(*target, data, env) {
            Outcome::Value(Some(v)) => Outcome::Value(member_of(v, prop)),
            Outcome::Value(None) => Outcome::Value(None),
            other => other,
        },
        SpecExpr::Index(target, i) => match eval_spec(*target, data, env) {
            Outcome::Value(Some(v)) => Outcome::Value(element_of(v, i)),
            Outcome::Value(None) => Outcome::Value(None),
            other => other,
        },
        SpecExpr::Call(name, args) => match eval_args(args, data, env) {
            ArgsOutcome::Missing => Outcome::Value(None),
            ArgsOutcome::Pending(o) => o,
            ArgsOutcome::Values(vs) => match table_get(env.helpers, helper_key(name, vs)) {
                Some(h) => Outcome::Value(Some(JsonModel::Str(h))),
                None => apply_builtin(name, vs, env),
            },
        },
    }
}

pub open spec fn eval_args(args: Seq<SpecExpr>, data: JsonModel, env: EnvModel) -> ArgsOutcome
    decreases args,
{
    if args.len() == 0 {
        ArgsOutcome::Values(Seq::empty())
    } else {
        match eval_args(args.drop_last(), data, env) {
            ArgsOutcome::Values(vs) => match eval_spec(args.last(), data, env) {
                Outcome::Value(Some(v)) => ArgsOutcome::Values(vs.push(v)),
                Outcome::Value(None) => ArgsOutcome::Missing,
                other => ArgsOutcome::Pending(other),
            },
            other => other,
        }
    }
}

pub open spec fn opt_json_view(o: Option<JsonValue>) -> Option<JsonModel> {
    match o {
        Some(v) => Some(v@),
        None => None,
    }
}

/// The tables an evaluation reads besides the data (see [`EnvModel`]).
pub struct EvalContext {
    pub helpers: Vec<(String, String)>,
    pub numbers: Vec<(String, Option<String>)>,
    pub amounts: Vec<(String, String)>,
}

impl View for EvalContext {
    type V = EnvModel;

    open spec fn view(&self) -> EnvModel {
        EnvModel {
            helpers: text_table_view(self.helpers@),
            numbers: number_table_view(self.numbers@),
            amounts: text_table_view(self.amounts@),
        }
    }
}

/// Result of [`evaluate_expr`] (see [`Outcome`]).
pub enum Evaluation {
    Value(Option<JsonValue>),
    NeedNumber(String),
    NeedAmount(String),
}

impl View for Evaluation {
    type V = Outcome;

    open spec fn view(&self) -> Outcome {
        match self {
            Evaluation::Value(o) => Outcome::Value(opt_json_view(*o)),
            Evaluation::NeedNumber(t) => Outcome::NeedNumber(t@),
            Evaluation::NeedAmount(t) => Outcome::NeedAmount(t@),
        }
    }
}

/// Index of the first entry whose key is `key`.
fn find_key<V>(table: &Vec<(String, V)>, key: &String) -> (r: Option<usize>)
    ensures
        match r {
            Some(j) => j < table.len() && table@[j as int].0@ == key@ && forall|k: int|
                0 <= k < j ==> #[trigger] table@[k].0@ != key@,
            None => forall|k: int| 0 <= k < table.len() ==> #[trigger] table@[k].0@ != key@,
        },
{
    let mut i: usize = 0;
    while i < table.len()
        invariant
            i <= table.len(),
            forall|k: int| 0 <= k < i ==> #[trigger] table@[k].0@ != key@,
        decreases table.len() - i,
    {
        if table[i].0 == *key {
            return Some(i);
        }
        i = i + 1;
    }
    None
}

/// The text recorded for `key` in a table of texts.
pub fn lookup_text(table: &Vec<(String, String)>, key: &String) -> (r: Option<String>)
    ensures
        opt_text_view(r) == table_get(text_table_view(table@), key@),
{
    let ghost tv = text_table_view(table@);
    match find_key(table, key) {
        Some(j) => {
            proof {
                assert forall|k: int| 0 <= k < j implies #[trigger] tv[k].0 != key@ by {
                    assert(table@[k].0@ != key@);
                }
                lemma_table_get(tv, key@, 0, j as int);
            }
            Some(table[j].1.clone())
        },
        None => {
            proof {
                assert forall|k: int| 0 <= k < table.len() implies #[trigger] tv[k].0 != key@ by {
                    assert(table@[k].0@ != key@);
                }
                lemma_table_get(tv, key@, 0, table.len() as int);
            }
            None
        },
    }
}

/// The entry recorded for a number literal's text.
fn lookup_number(table: &Vec<(String, Option<String>)>, key: &String) -> (r: Option<Option<String>>)
    ensures
        match r {
            Some(o) => table_get(number_table_view(table@), key@) == Some(opt_text_view(o)),
            None => table_get(number_table_view(table@), key@) is None,
        },
{
    let ghost tv = number_table_view(table@);
    match find_key(table, key) {
        Some(j) => {
            proof {
                assert forall|k: int| 0 <= k < j implies #[trigger] tv[k].0 != key@ by {
                    assert(table@[k].0@ != key@);
                }
                lemma_table_get(tv, key@, 0, j as int);
            }
            match &table[j].1 {
                Some(s) => Some(Some(s.clone())),
                None => Some(None),
            }
        },
        None => {
            proof {
                assert forall|k: int| 0 <= k < table.len() implies #[trigger] tv[k].0 != key@ by {
                    assert(table@[k].0@ != key@);
                }
                lemma_table_get(tv, key@, 0, table.len() as int);
            }
            None
        },
    }
}

/// A copy of the member `key` of `v`, where `v` is an object that has it.
pub fn member_value(v: &JsonValue, key: &String) -> (r: Option<JsonValue>)
    ensures
        opt_json_view(r) == member_of(v@, key@),
{
    match v {
        JsonValue::Object(members) => {
            let ghost mv = members_view(members@);
            proof {
                lemma_members_view(members@);
            }
            match find_key(members, key) {
                Some(j) => {
                    proof {
                        assert forall|k: int| 0 <= k < j implies #[trigger] mv[k].0 != key@ by {
                            assert(members@[k].0@ != key@);
                        }
                        lemma_table_get(mv, key@, 0, j as int);
                    }
                    Some(copy_value(&members[j].1))
                },
                None => {
                    proof {
                        assert forall|k: int| 0 <= k < members.len() implies #[trigger] mv[k].0 != key@ by {
                            assert(members@[k].0@ != key@);
                        }
                        lemma_table_get(mv, key@, 0, members.len() as int);
                    }
                    None
                },
            }
        },
        _ => None,
    }
}

/// A copy of element `i` of `v`, where `v` is an array that long.
pub fn element_value(v: &JsonValue, i: usize) -> (r: Option<JsonValue>)
    ensures
        opt_json_view(r) == element_of(v@, i),
{
    match v {
        JsonValue::Array(items) => {
            proof {
                lemma_values_view(items@);
            }
            if i < items.len() {
                Some(copy_value(&items[i]))
            } else {
                None
            }
        },
        _ => None,
    }
}

pub proof fn lemma_exprs_view(s: Seq<Expr>)
    ensures
        exprs_view(s).len() == s.len(),
        forall|i: int| 0 <= i < s.len() ==> #[trigger] exprs_view(s)[i] == expr_view(s[i]),
    decreases s.len(),
{
    if s.len() > 0 {
        lemma_exprs_view(s.drop_last());
    }
}

/// Once a prefix of the arguments has no value or waits for a
/// conversion, so do all the arguments.
pub proof fn lemma_eval_args_settled(s: Seq<SpecExpr>, k: int, data: JsonModel, env: EnvModel)
    requires
        0 <= k <= s.len(),
        !(eval_args(s.take(k), data, env) is Values),
    ensures
        eval_args(s, data, env) == eval_args(s.take(k), data, env),
    decreases s.len() - k,
{
    if k < s.len() {
        assert(s.take(k + 1).drop_last() == s.take(k));
        lemma_eval_args_settled(s, k + 1, data, env);
    } else {
        assert(s.take(k) == s);
    }
}

/// The text under which a call's result is looked up among the helpers.
pub fn call_key(name: &String, vals: &Vec<JsonValue>) -> (k: String)
    ensures
        k@ == helper_key(name@, values_view(vals@)),
{
    let ghost vs = values_view(vals@);
    proof {
        lemma_values_view(vals@);
    }
    let mut k = name.clone();
    string_push(&mut k, '(');
    assert(vs.take(0) =~= Seq::<JsonModel>::empty());
    assert(k@ =~= name@ + seq!['('] + join_display(vs.take(0)));
    let mut i: usize = 0;
    while i < vals.len()
        invariant
            i <= vals.len(),
            vs == values_view(vals@),
            vs.len() == vals.len(),
            forall|j: int| 0 <= j < vals.len() ==> #[trigger] vs[j] == json_view(vals@[j]),
            k@ == name@ + seq!['('] + join_display(vs.take(i as int)),
        decreases vals.len() - i,
    {
        let ghost before = k@;
        if i > 0 {
            string_push(&mut k, ',');
        }
        let t = value_to_string(&vals[i]);
        push_str(&mut k, t.as_str());
        proof {
            let next = vs.take(i as int + 1);
            assert(next.drop_last() =~= vs.take(i as int));
            assert(next.last() == vs[i as int]);
            if i == 0 {
                assert(join_display(next) == display(vs[0]));
                assert(k@ =~= before + display(vs[0]));
            } else {
                assert(join_display(next) == join_display(vs.take(i as int)) + seq![','] + display(vs[i as int]));
                assert(k@ =~= before + seq![','] + display(vs[i as int]));
            }
            assert(k@ =~= name@ + seq!['('] + join_display(next));
        }
        i = i + 1;
    }
    string_push(&mut k, ')');
    assert(vs.take(i as int) =~= vs);
    assert(k@ =~= helper_key(name@, vs));
    k
}

/// The text a currency amount is read from (see [`amount_source`]).
pub fn amount_source_text(v: &JsonValue) -> (r: String)
    ensures
        r@ == amount_source(v@),
{
    match v {
        JsonValue::Number(t) => t.clone(),
        JsonValue::String(s) => s.clone(),
        _ => String::new(),
    }
}

/// Applies a built-in helper to evaluated arguments (see [`apply_builtin`]).
pub fn apply_builtin_call(name: &String, vals: &Vec<JsonValue>, ctx: &EvalContext) -> (r: Evaluation)
    ensures
        r@ == apply_builtin(name@, values_view(vals@), ctx@),
{
    if vals.len() == 0 {
        return Evaluation::Value(None);
    }
    proof {
        lemma_values_view(vals@);
    }
    if *name == to_owned_string("uppercase") {
        let s = value_to_string(&vals[0]);
        Evaluation::Value(Some(JsonValue::String(to_uppercase(s.as_str()))))
    } else if *name == to_owned_string("lowercase") {
        let s = value_to_string(&vals[0]);
        Evaluation::Value(Some(JsonValue::String(to_lowercase(s.as_str()))))
    } else if *name == to_owned_string("trim") {
        let s = value_to_string(&vals[0]);
        Evaluation::Value(Some(JsonValue::String(to_owned_string(trim_str(s.as_str())))))
    } else if *name == to_owned_string("currency") {
        let src = amount_source_text(&vals[0]);
        match lookup_text(&ctx.amounts, &src) {
            Some(a) => Evaluation::Value(Some(JsonValue::String(a))),
            None => Evaluation::NeedAmount(src),
        }
    } else {
        Evaluation::Value(None)
    }
}

/// Evaluates an expression against JSON data, reading helper results and
/// decimal conversions from `ctx` (see [`eval_spec`]).
pub fn evaluate_expr(expr: &Expr, data: &JsonValue, ctx: &EvalContext) -> (r: Evaluation)
    ensures
        r@ == eval_spec(expr@, data@, ctx@),
    decreases expr,
{
    match expr {
        Expr::Ident(name) => Evaluation::Value(member_value(data, name)),
        Expr::StringLit(s) => Evaluation::Value(Some(JsonValue::String(s.clone()))),
        Expr::NumberLit(t) => match lookup_number(&ctx.numbers, t) {
            Some(Some(n)) => Evaluation::Value(Some(JsonValue::Number(n))),
            Some(None) => Evaluation::Value(None),
            None => Evaluation::NeedNumber(t.clone()),
        },
        Expr::Member(target, prop) => {
            let inner = evaluate_expr(target, data, ctx);
            match inner {
                Evaluation::Value(Some(v)) => Evaluation::Value(member_value(&v, prop)),
                Evaluation::Value(None) => Evaluation::Value(None),
                other => other,
            }
        },
        Expr::Index(target, i) => {
            let inner = evaluate_expr(target, data, ctx);
            match inner {
                Evaluation::Value(Some(v)) => Evaluation::Value(element_value(&v, *i)),
                Evaluation::Value(None) => Evaluation::Value(None),
                other => other,
            }
        },
        Expr::Call(name, args) => {
            let ghost sargs = exprs_view(args@);
            proof {
                lemma_exprs_view(args@);
            }
            let mut vals: Vec<JsonValue> = Vec::new();
            let mut i: usize = 0;
            assert(sargs.take(0) =~= Seq::<SpecExpr>::empty());
            assert(values_view(vals@) =~= Seq::<JsonModel>::empty());
            while i < args.len()
                invariant
                    *expr == Expr::Call(*name, *args),
                    i <= args.len(),
                    sargs == exprs_view(args@),
                    sargs.len() == args.len(),
                    forall|k: int| 0 <= k < args.len() ==> #[trigger] sargs[k] == expr_view(args@[k]),
                    eval_args(sargs.take(i as int), data@, ctx@) == ArgsOutcome::Values(values_view(vals@)),
                decreases args.len() - i,
            {
                proof {
                    let ghost ee: Expr = *expr;
                    assert(decreases_to!(ee => ee->Call_1));
                    assert(decreases_to!(*args => args[i as int]));
                }
                let r = evaluate_expr(&args[i], data, ctx);
                proof {
                    assert(sargs.take(i as int + 1).drop_last() =~= sargs.take(i as int));
                    assert(sargs.take(i as int + 1).last() == sargs[i as int]);
                }
                match r {
                    Evaluation::Value(Some(v)) => {
                        let ghost prev = vals@;
                        vals.push(v);
                        proof {
                            assert(vals@.drop_last() == prev);
                        }
                    },
                    Evaluation::Value(None) => {
                        proof {
                            lemma_eval_args_settled(sargs, i as int + 1, data@, ctx@);
                        }
                        return Evaluation::Value(None);
                    },
                    other => {
                        proof {
                            lemma_eval_args_settled(sargs, i as int + 1, data@, ctx@);
                        }
                        return other;
                    },
                }
                i = i + 1;
            }
            proof {
                assert(sargs.take(i as int) =~= sargs);
            }
            let key = call_key(name, &vals);
            match lookup_text(&ctx.helpers, &key) {
                Some(h) => Evaluation::Value(Some(JsonValue::String(h))),
                None => apply_builtin_call(name, &vals, ctx),
            }
        },
    }
}

/// How the text of a placeholder comes out.
pub enum TextModel {
    Text(Seq<char>),
    Invalid(Seq<char>, Seq<char>),
    Missing,
    NeedNumber(Seq<char>),
    NeedAmount(Seq<char>),
}

/// The text that fills a placeholder: a helper result recorded under the
/// expression itself, else the text of the expression's value. An
/// expression that does not parse is invalid (with the parser's expression
/// and message); one without a value is missing.
pub open spec fn placeholder_text_spec(expression: Seq<char>, data: JsonModel, env: EnvModel) -> TextModel {
    match table_get(env.helpers, expression) {
        Some(h) => TextModel::Text(h),
        None => match parse_expression_spec(expression) {
            Err((x, m)) => TextModel::Invalid(x, m),
            Ok(e) => match eval_spec(e, data, env) {
                Outcome::Value(Some(v)) => TextModel::Text(display(v)),
                Outcome::Value(None) => TextModel::Missing,
                Outcome::NeedNumber(t) => TextModel::NeedNumber(t),
                Outcome::NeedAmount(t) => TextModel::NeedAmount(t),
            },
        },
    }
}

/// Result of [`placeholder_text`] (see [`TextModel`]).
pub enum PlaceholderText {
    Text(String),
    Invalid(ExpressionError),
    Missing,
    NeedNumber(String),
    NeedAmount(String),
}

impl View for PlaceholderText {
    type V = TextModel;

    open spec fn view(&self) -> TextModel {
        match self {
            PlaceholderText::Text(s) => TextModel::Text(s@),
            PlaceholderText::Invalid(e) => TextModel::Invalid(e.expression@, e.message@),
            PlaceholderText::Missing => TextModel::Missing,
            PlaceholderText::NeedNumber(t) => TextModel::NeedNumber(t@),
            PlaceholderText::NeedAmount(t) => TextModel::NeedAmount(t@),
        }
    }
}

/// The text that fills the placeholder with expression `expression`
/// (see [`placeholder_text_spec`]).
pub fn placeholder_text(expression: &str, data: &JsonValue, ctx: &EvalContext) -> (r: PlaceholderText)
    ensures
        r@ == placeholder_text_spec(expression@, data@, ctx@),
{
    let key = to_owned_string(expression);
    match lookup_text(&ctx.helpers, &key) {
        Some(h) => PlaceholderText::Text(h),
        None => match ExpressionParser::parse_expression(expression) {
            Err(e) => PlaceholderText::Invalid(e),
            Ok(ast) => match evaluate_expr(&ast, data, ctx) {
                Evaluation::Value(Some(v)) => PlaceholderText::Text(value_to_string(&v)),
                Evaluation::Value(None) => PlaceholderText::Missing,
                Evaluation::NeedNumber(t) => PlaceholderText::NeedNumber(t),
                Evaluation::NeedAmount(t) => PlaceholderText::NeedAmount(t),
            },
        },
    }
}

/// An evaluation that waits for a conversion waits for one that the
/// tables do not hold.
pub proof fn law_pending_conversion_is_absent(e: SpecExpr, data: JsonModel, env: EnvModel)
    ensures
        eval_spec(e, data, env) matches Outcome::NeedNumber(t) ==> table_get(env.numbers, t) is None,
        eval_spec(e, data, env) matches Outcome::NeedAmount(t) ==> table_get(env.amounts, t) is None,
    decreases e,
{
    match e {
        SpecExpr::Member(target, _) => {
            law_pending_conversion_is_absent(*target, data, env);
        },
        SpecExpr::Index(target, _) => {
            law_pending_conversion_is_absent(*target, data, env);
        },
        SpecExpr::Call(name, args) => {
            lemma_args_pending_absent(args, data, env);
        },
        _ => {},
    }
}

proof fn lemma_args_pending_absent(args: Seq<SpecExpr>, data: JsonModel, env: EnvModel)
    ensures
        eval_args(args, data, env) matches ArgsOutcome::Pending(Outcome::NeedNumber(t)) ==> table_get(env.numbers, t) is None,
        eval_args(args, data, env) matches ArgsOutcome::Pending(Outcome::NeedAmount(t)) ==> table_get(env.amounts, t) is None,
        !(eval_args(args, data, env) matches ArgsOutcome::Pending(Outcome::Value(_))),
    decreases args,
{
    if args.len() > 0 {
        lemma_args_pending_absent(args.drop_last(), data, env);
        law_pending_conversion_is_absent(args.last(), data, env);
    }
}

/// `env2` holds the helper results of `env` and its conversion tables with
/// entries appended.
pub open spec fn extends(env2: EnvModel, env: EnvModel) -> bool {
    &&& env2.helpers == env.helpers
    &&& env.numbers.len() <= env2.numbers.len()
    &&& env2.numbers.subrange(0, env.numbers.len() as int) == env.numbers
    &&& env.amounts.len() <= env2.amounts.len()
    &&& env2.amounts.subrange(0, env.amounts.len() as int) == env.amounts
}

proof fn lemma_table_get_prefix<V>(t1: Seq<(Seq<char>, V)>, t2: Seq<(Seq<char>, V)>, key: Seq<char>, i: int)
    requires
        0 <= i <= t1.len() <= t2.len(),
        t2.subrange(0, t1.len() as int) == t1,
        table_get_from(t1, key, i) is Some,
    ensures
        table_get_from(t2, key, i) == table_get_from(t1, key, i),
    decreases t1.len() - i,
{
    assert(t2[i] == t1[i]);
    if t1[i].0 != key {
        lemma_table_get_prefix(t1, t2, key, i + 1);
    }
}

/// An evaluation that has its value keeps it when entries are appended to
/// the conversion tables: supplying a requested conversion never changes
/// what was already settled.
pub proof fn law_settled_evaluation_is_stable(e: SpecExpr, data: JsonModel, env: EnvModel, env2: EnvModel)
    requires
        extends(env2, env),
        eval_spec(e, data, env) is Value,
    ensures
        eval_spec(e, data, env2) == eval_spec(e, data, env),
    decreases e,
{
    match e {
        SpecExpr::NumberLit(t) => {
            lemma_table_get_prefix(env.numbers, env2.numbers, t, 0);
        },
        SpecExpr::Member(target, _) => {
            law_settled_evaluation_is_stable(*target, data, env, env2);
        },
        SpecExpr::Index(target, _) => {
            law_settled_evaluation_is_stable(*target, data, env, env2);
        },
        SpecExpr::Call(name, args) => {
            lemma_args_pending_absent(args, data, env);
            lemma_settled_args_stable(args, data, env, env2);
            match eval_args(args, data, env) {
                ArgsOutcome::Values(vs) => {
                    if table_get(env.helpers, helper_key(name, vs)) is None && vs.len() > 0 && name != "uppercase"@
                        && name != "lowercase"@ && name != "trim"@ && name == "currency"@ {
                        lemma_table_get_prefix(env.amounts, env2.amounts, amount_source(vs[0]), 0);
                    }
                },
                _ => {},
            }
        },
        _ => {},
    }
}

proof fn lemma_settled_args_stable(args: Seq<SpecExpr>, data: JsonModel, env: EnvModel, env2: EnvModel)
    requires
        extends(env2, env),
        !(eval_args(args, data, env) is Pending),
    ensures
        eval_args(args, data, env2) == eval_args(args, data, env),
    decreases args,
{
    if args.len() > 0 {
        lemma_args_pending_absent(args.drop_last(), data, env);
        lemma_settled_args_stable(args.drop_last(), data, env, env2);
        if eval_args(args.drop_last(), data, env) is Values {
            law_settled_evaluation_is_stable(args.last(), data, env, env2);
        }
    }
}

/// The built-in text helpers: where no helper result is recorded for the
/// call's text and every argument has a value, `uppercase`, `lowercase`
/// and `trim` give the text of the first argument upper-cased, lower-cased
/// or with surrounding whitespace removed.
pub proof fn law_text_helpers(name: Seq<char>, args: Seq<SpecExpr>, data: JsonModel, env: EnvModel)
    requires
        name == "uppercase"@ || name == "lowercase"@ || name == "trim"@,
        eval_args(args, data, env) matches ArgsOutcome::Values(vs) && vs.len() > 0 && table_get(
            env.helpers,
            helper_key(name, vs),
        ) is None,
    ensures
        eval_args(args, data, env) matches ArgsOutcome::Values(vs) && eval_spec(SpecExpr::Call(name, args), data, env)
            == Outcome::Value(
            Some(
                JsonModel::Str(
                    if name == "uppercase"@ {
                        uppercase(display(vs[0]))
                    } else if name == "lowercase"@ {
                        lowercase(display(vs[0]))
                    } else {
                        trim(display(vs[0]))
                    },
                ),
            ),
        ),
{
    reveal_strlit("uppercase");
    reveal_strlit("lowercase");
    reveal_strlit("trim");
    assert("uppercase"@ != "lowercase"@ && "uppercase"@ != "trim"@ && "lowercase"@ != "trim"@) by {
        assert("uppercase"@[0] != "lowercase"@[0]);
        assert("uppercase"@.len() != "trim"@.len());
        assert("lowercase"@.len() != "trim"@.len());
    }
}

/// Paths and literals: an identifier is the member of that name of the
/// data object, `.name` the member of the target's value, `[i]` element `i`
/// of it, a string literal the string, and a number literal the JSON number
/// recorded for its text; a target without a value gives none.
pub proof fn law_paths_and_literals(e: SpecExpr, data: JsonModel, env: EnvModel)
    ensures
        e matches SpecExpr::Ident(n) ==> eval_spec(e, data, env) == Outcome::Value(member_of(data, n)),
        e matches SpecExpr::StringLit(t) ==> eval_spec(e, data, env) == Outcome::Value(Some(JsonModel::Str(t))),
        e matches SpecExpr::NumberLit(t) ==> (table_get(env.numbers, t) matches Some(n) ==> eval_spec(e, data, env)
            == Outcome::Value(
            match n {
                Some(x) => Some(JsonModel::Number(x)),
                None => None,
            },
        )),
        e matches SpecExpr::Member(target, p) ==> (eval_spec(*target, data, env) matches Outcome::Value(o) ==> eval_spec(
            e,
            data,
            env,
        ) == Outcome::Value(
            match o {
                Some(v) => member_of(v, p),
                None => None,
            },
        )),
        e matches SpecExpr::Index(target, i) ==> (eval_spec(*target, data, env) matches Outcome::Value(o) ==> eval_spec(
            e,
            data,
            env,
        ) == Outcome::Value(
            match o {
                Some(v) => element_of(v, i),
                None => None,
            },
        )),
{
}

/// The text under which a call's result is looked up among the helpers is
/// the helper's name, `(`, the texts of the argument values separated by
/// single commas, and `)`.
pub proof fn law_helper_key_text(name: Seq<char>, vs: Seq<JsonModel>, v1: JsonModel, v2: JsonModel)
    ensures
        helper_key(name, Seq::empty()) == name + seq!['(', ')'],
        helper_key(name, seq![v1]) == name + seq!['('] + display(v1) + seq![')'],
        helper_key(name, seq![v1, v2]) == name + seq!['('] + display(v1) + seq![','] + display(v2) + seq![')'],
        vs.len() > 0 ==> helper_key(name, vs.push(v1)) == helper_key(name, vs).drop_last() + seq![','] + display(v1)
            + seq![')'],
{
    assert(helper_key(name, Seq::empty()) =~= name + seq!['(', ')']);
    assert(helper_key(name, seq![v1]) =~= name + seq!['('] + display(v1) + seq![')']);
    let two = seq![v1, v2];
    assert(two.drop_last() =~= seq![v1]);
    assert(helper_key(name, two) =~= name + seq!['('] + display(v1) + seq![','] + display(v2) + seq![')']);
    if vs.len() > 0 {
        assert(vs.push(v1).drop_last() =~= vs);
        assert(helper_key(name, vs.push(v1)) =~= helper_key(name, vs).drop_last() + seq![','] + display(v1) + seq![')']);
    }
}

/// A call whose arguments all have values and whose text is recorded among
/// the helpers evaluates to the recorded text, whatever the helper's name.
pub proof fn law_registered_helper_call(name: Seq<char>, args: Seq<SpecExpr>, data: JsonModel, env: EnvModel)
    requires
        eval_args(args, data, env) matches ArgsOutcome::Values(vs) && table_get(env.helpers, helper_key(name, vs)) is Some,
    ensures
        eval_args(args, data, env) matches ArgsOutcome::Values(vs) && eval_spec(SpecExpr::Call(name, args), data, env)
            == Outcome::Value(Some(JsonModel::Str(table_get(env.helpers, helper_key(name, vs))->0))),
{
}

/// Indexing counts from the start of the array: `target[i]` is element `i`
/// of the target's array value when the array has more than `i` elements,
/// and has no value otherwise.
pub proof fn law_index_selects_element(target: SpecExpr, i: usize, data: JsonModel, env: EnvModel)
    requires
        eval_spec(target, data, env) matches Outcome::Value(Some(JsonModel::Array(items))),
    ensures
        eval_spec(target, data, env) matches Outcome::Value(Some(JsonModel::Array(items))) && eval_spec(
            SpecExpr::Index(Box::new(target), i),
            data,
            env,
        ) == Outcome::Value(if i < items.len() { Some(items[i as int]) } else { None }),
{
}

/// The text of the JSON value of element `i` of an array is the text of the
/// `i`-th element of the array as held.
pub proof fn law_array_elements_in_order(items: Seq<JsonValue>, i: int)
    requires
        0 <= i < items.len(),
    ensures
        values_view(items).len() == items.len(),
        values_view(items)[i] == items[i]@,
{
    lemma_values_view(items);
}

/// A member lookup gives the value of the first member with that name, and
/// nothing when no member has it.
pub proof fn law_member_lookup(ms: Seq<(Seq<char>, JsonModel)>, key: Seq<char>, j: int)
    requires
        0 <= j <= ms.len(),
        forall|k: int| 0 <= k < j ==> (#[trigger] ms[k]).0 != key,
        j < ms.len() ==> ms[j].0 == key,
    ensures
        member_of(JsonModel::Object(ms), key) == (if j < ms.len() { Some(ms[j].1) } else { None::<JsonModel> }),
{
    lemma_table_get(ms, key, 0, j);
}

} // verus!
