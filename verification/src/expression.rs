//! Evaluation of `Bit` formulas over integers with the `evalexpr` crate.

use vstd::prelude::*;
use evalexpr::{ContextWithMutableVariables, DefaultNumericTypes, HashMapContext, Value};
use crate::register::binding_views;
use crate::text::chars_of;
use crate::translator::Formula;

verus! {

/// `word` occurs in `s`.
pub open spec fn mentions(s: Seq<char>, word: Seq<char>) -> bool {
    exists|i: int| 0 <= i && i + word.len() <= s.len() && #[trigger] s.subrange(i, i + word.len()) == word
}

/// A character that `evalexpr` keeps inside a name: an ASCII letter or
/// digit, `_`, `:` or `.`.
pub open spec fn is_name_char(c: char) -> bool {
    ('a' <= c && c <= 'z') || ('A' <= c && c <= 'Z') || ('0' <= c && c <= '9') || c == '_' || c
        == ':' || c == '.'
}

/// `word` occurs in `s` as a whole name: no name character stands right
/// before or right after it.
pub open spec fn names(s: Seq<char>, word: Seq<char>) -> bool {
    exists|i: int|
        0 <= i && i + word.len() <= s.len() && #[trigger] s.subrange(i, i + word.len()) == word && (
        i == 0 || !is_name_char(s[i - 1])) && (i + word.len() == s.len() || !is_name_char(
            s[i + word.len()],
        ))
}

/// The expression may call one of the `evalexpr` builtins that panic on some
/// arguments: `str::substring` (on an index that is no character boundary),
/// `shl` and `shr` (on a shift out of range) and `math::abs` (on the least
/// integer). `evalexpr` reads a name from a run of characters between
/// operators, braces, commas, semicolons, quotes and white space, and joins
/// the runs on both sides of a comment; so a text without a comment in which
/// none of these names stands whole cannot call them.
pub open spec fn names_partial_builtin(expression: Seq<char>) -> bool {
    ||| names(expression, "str::substring"@)
    ||| names(expression, "shl"@)
    ||| names(expression, "shr"@)
    ||| names(expression, "math::abs"@)
    ||| mentions(expression, "//"@)
    ||| mentions(expression, "/*"@)
}

fn is_name_char_exec(c: char) -> (result: bool)
    ensures
        result == is_name_char(c),
{
    ('a' <= c && c <= 'z') || ('A' <= c && c <= 'Z') || ('0' <= c && c <= '9') || c == '_' || c
        == ':' || c == '.'
}

/// Whether `word` occurs in the characters `s` as a whole name.
fn names_word(s: &Vec<char>, word: &str) -> (result: bool)
    requires
        word@.len() > 0,
    ensures
        result == names(s@, word@),
{
    let w = chars_of(word);
    let n = s.len();
    let m = w.len();
    if m > n {
        return false;
    }
    let mut i: usize = 0;
    while i <= n - m
        invariant
            w@ == word@,
            n == s@.len(),
            m == w@.len(),
            0 < m <= n,
            i <= n - m + 1,
            forall|k: int|
                0 <= k < i ==> !(#[trigger] s@.subrange(k, k + m) == word@ && (k == 0
                    || !is_name_char(s@[k - 1])) && (k + m == n || !is_name_char(s@[k + m]))),
        decreases n - m + 1 - i,
    {
        let mut j: usize = 0;
        while j < m && s[i + j] == w[j]
            invariant
                w@ == word@,
                n == s@.len(),
                m == w@.len(),
                i + m <= n,
                j <= m,
                forall|k: int| 0 <= k < j ==> s@[i + k] == w@[k],
            decreases m - j,
        {
            j = j + 1;
        }
        if j == m {
            assert(s@.subrange(i as int, i + m) =~= word@);
            let before = i == 0 || !is_name_char_exec(s[i - 1]);
            let after = i + m == n || !is_name_char_exec(s[i + m]);
            if before && after {
                return true;
            }
        } else {
            assert(s@.subrange(i as int, i + m)[j as int] != word@[j as int]);
        }
        i = i + 1;
    }
    assert forall|k: int|
        0 <= k && k + word@.len() <= s@.len() && #[trigger] s@.subrange(k, k + word@.len())
            == word@ implies !((k == 0 || !is_name_char(s@[k - 1])) && (k + word@.len() == s@.len()
        || !is_name_char(s@[k + word@.len()]))) by {
        assert(k < i);
    }
    false
}

/// Whether `word` occurs in the characters `s`.
fn mentions_word(s: &Vec<char>, word: &str) -> (result: bool)
    ensures
        result == mentions(s@, word@),
{
    let w = chars_of(word);
    let n = s.len();
    let m = w.len();
    if m > n {
        assert forall|i: int| 0 <= i && i + word@.len() <= s@.len() implies #[trigger] s@.subrange(
            i,
            i + word@.len(),
        ) != word@ by {}
        return false;
    }
    let mut i: usize = 0;
    while i <= n - m
        invariant
            w@ == word@,
            n == s@.len(),
            m == w@.len(),
            m <= n,
            i <= n - m + 1,
            forall|k: int| 0 <= k < i ==> #[trigger] s@.subrange(k, k + m) != word@,
        decreases n - m + 1 - i,
    {
        let mut j: usize = 0;
        while j < m && s[i + j] == w[j]
            invariant
                w@ == word@,
                n == s@.len(),
                m == w@.len(),
                i + m <= n,
                j <= m,
                forall|k: int| 0 <= k < j ==> s@[i + k] == w@[k],
            decreases m - j,
        {
            j = j + 1;
        }
        if j == m {
            assert(s@.subrange(i as int, i + m) =~= word@);
            return true;
        }
        assert(s@.subrange(i as int, i + m)[j as int] != word@[j as int]);
        i = i + 1;
    }
    assert forall|k: int| 0 <= k && k + word@.len() <= s@.len() implies #[trigger] s@.subrange(
        k,
        k + word@.len(),
    ) != word@ by {
        assert(k < i);
    }
    false
}

/// Whether the expression may call one of the `evalexpr` builtins that panic
/// on some arguments (`names_partial_builtin`).
pub fn names_partial_builtin_exec(expression: &str) -> (result: bool)
    ensures
        result == names_partial_builtin(expression@),
{
    let s = chars_of(expression);
    proof {
        reveal_strlit("str::substring");
        reveal_strlit("shl");
        reveal_strlit("shr");
        reveal_strlit("math::abs");
    }
    names_word(&s, "str::substring") || names_word(&s, "shl") || names_word(&s, "shr")
        || names_word(&s, "math::abs") || mentions_word(&s, "//") || mentions_word(&s, "/*")
}

/// An `evalexpr::HashMapContext`, held in a private field so that only
/// integer variables, and no functions of its own, are ever put into it.
#[verifier::external_body]
pub struct IntegerContext {
    context: HashMapContext<DefaultNumericTypes>,
}

/// The variables of an integer context.
pub uninterp spec fn context_variables(context: IntegerContext) -> Map<Seq<char>, i64>;

/// What `evalexpr::eval_int_with_context` gives for an expression when the
/// context binds exactly these integer variables: the integer value, or
/// `None` where the expression does not parse, fails to evaluate, or has a
/// value that is not an integer. Without the crate's `rand` feature, which
/// this crate does not enable, the evaluation depends on these alone.
pub uninterp spec fn integer_expression_value(expression: Seq<char>, variables: Map<Seq<char>, i64>) -> Option<i64>;

impl IntegerContext {
    /// Calls `HashMapContext::new`: a context without variables.
    #[verifier::external_body]
    pub(crate) fn new() -> (result: IntegerContext)
        ensures
            context_variables(result).dom() == Set::<Seq<char>>::empty(),
    {
        IntegerContext { context: HashMapContext::<DefaultNumericTypes>::new() }
    }

    /// Calls `ContextWithMutableVariables::set_value` with `Value::from_int`.
    /// `set_value` refuses only a value whose type differs from the one the
    /// name already holds; as this context holds integers only, the call
    /// binds the name, replacing an earlier value.
    #[verifier::external_body]
    pub(crate) fn set_integer(&mut self, name: String, value: i64)
        ensures
            context_variables(*final(self)) == context_variables(*old(self)).insert(name@, value),
    {
        let _ = self.context.set_value(name, Value::from_int(value));
    }

    /// Calls `evalexpr::eval_int_with_context`, which parses the expression,
    /// evaluates it with the context's variables and takes the result if it
    /// is an integer. The value is named (`integer_expression_value`), not
    /// stated. The expression may name none of the builtins that panic on some
    /// arguments (`names_partial_builtin`); the other builtins and operators
    /// return an error where they fail.
    #[verifier::external_body]
    pub(crate) fn eval_integer(&self, expression: &str) -> (result: Option<i64>)
        requires
            !names_partial_builtin(expression@),
        ensures
            result == integer_expression_value(expression@, context_variables(*self)),
    {
        evalexpr::eval_int_with_context(expression, &self.context).ok()
    }
}

/// The integer variables that a formula's bindings set, in order: a later
/// binding of the same name replaces an earlier one.
pub open spec fn bindings_map(bindings: Seq<(Seq<char>, u16)>) -> Map<Seq<char>, i64>
    decreases bindings.len(),
{
    if bindings.len() == 0 {
        Map::empty()
    } else {
        bindings_map(bindings.drop_last()).insert(bindings.last().0, bindings.last().1 as i64)
    }
}

/// Evaluates a `Bit` formula: its expression with each binding set as an
/// integer variable. `None` where the expression does not parse, fails to
/// evaluate, or has a value that is not an integer. The expression must name
/// none of the builtins that panic on some arguments.
pub fn evaluate_bit(formula: &Formula) -> (result: Option<i64>)
    requires
        !names_partial_builtin(formula.expression@),
    ensures
        result == integer_expression_value(
            formula.expression@,
            bindings_map(binding_views(formula.bindings@)),
        ),
{
    let ghost views = binding_views(formula.bindings@);
    let mut context = IntegerContext::new();
    assert(context_variables(context) =~= bindings_map(views.take(0)));
    let n = formula.bindings.len();
    let mut i: usize = 0;
    while i < n
        invariant
            n == formula.bindings@.len(),
            views == binding_views(formula.bindings@),
            i <= n,
            context_variables(context) == bindings_map(views.take(i as int)),
        decreases n - i,
    {
        let (name, value) = &formula.bindings[i];
        context.set_integer(name.clone(), *value as i64);
        assert(views.take(i + 1).drop_last() =~= views.take(i as int));
        i = i + 1;
    }
    assert(views.take(n as int) =~= views);
    context.eval_integer(formula.expression.as_str())
}

/// A formula's bindings set exactly their names, and each name is bound to
/// the whole reading of its last binding, as an integer: nothing of the
/// reading is dropped.
pub proof fn lemma_bindings_map_values(bindings: Seq<(Seq<char>, u16)>, j: int)
    requires
        0 <= j < bindings.len(),
        forall|m: int| j < m < bindings.len() ==> #[trigger] bindings[m].0 != bindings[j].0,
    ensures
        bindings_map(bindings).contains_key(bindings[j].0),
        bindings_map(bindings)[bindings[j].0] as int == bindings[j].1 as int,
    decreases bindings.len(),
{
    let last = bindings.len() - 1;
    if j < last {
        let init = bindings.drop_last();
        assert(init[j] == bindings[j]);
        assert forall|m: int| j < m < init.len() implies #[trigger] init[m].0 != init[j].0 by {
            assert(init[m] == bindings[m]);
        }
        lemma_bindings_map_values(init, j);
        assert(bindings[last].0 != bindings[j].0);
    }
}

/// A name is bound exactly when some binding has it.
pub proof fn lemma_bindings_map_names(bindings: Seq<(Seq<char>, u16)>, n: Seq<char>)
    ensures
        bindings_map(bindings).contains_key(n) <==> exists|j: int|
            0 <= j < bindings.len() && #[trigger] bindings[j].0 == n,
    decreases bindings.len(),
{
    if bindings.len() > 0 {
        let init = bindings.drop_last();
        let last = bindings.len() - 1;
        lemma_bindings_map_names(init, n);
        if bindings_map(bindings).contains_key(n) && bindings[last].0 != n {
            let j = choose|j: int| 0 <= j < init.len() && #[trigger] init[j].0 == n;
            assert(bindings[j] == init[j]);
        }
        if exists|j: int| 0 <= j < bindings.len() && #[trigger] bindings[j].0 == n {
            let j = choose|j: int| 0 <= j < bindings.len() && #[trigger] bindings[j].0 == n;
            if j < last {
                assert(init[j] == bindings[j]);
            }
        }
    }
}

/// An expression without lower-case ASCII letters and without a comment, such
/// as one made of `0X` registers, digits, spaces and `+ - * / % ( ) ,`, can
/// call none of the builtins that panic: the library evaluates it.
pub proof fn lemma_plain_expression_is_evaluated(expression: Seq<char>)
    requires
        forall|i: int| 0 <= i < expression.len() ==> !('a' <= #[trigger] expression[i] && expression[i] <= 'z'),
        !mentions(expression, "//"@),
        !mentions(expression, "/*"@),
    ensures
        !names_partial_builtin(expression),
{
    reveal_strlit("str::substring");
    reveal_strlit("shl");
    reveal_strlit("shr");
    reveal_strlit("math::abs");
    assert forall|w: Seq<char>| w.len() > 0 && 'a' <= w[0] && w[0] <= 'z' implies !names(expression, w) by {
        if names(expression, w) {
            let i = choose|i: int|
                0 <= i && i + w.len() <= expression.len() && #[trigger] expression.subrange(
                    i,
                    i + w.len(),
                ) == w && (i == 0 || !is_name_char(expression[i - 1])) && (i + w.len()
                    == expression.len() || !is_name_char(expression[i + w.len()]));
            assert(expression.subrange(i, i + w.len())[0] == expression[i]);
        }
    }
    assert("str::substring"@[0] == 's');
    assert("shl"@[0] == 's');
    assert("shr"@[0] == 's');
    assert("math::abs"@[0] == 'm');
}

} // verus!
