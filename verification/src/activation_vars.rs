//! Resolution of activation values.
//!
//! Values are templates: a manifest holds them as ordinary texts, and they are
//! interpreted only when an env is activated. `$TOOLBOX_PREFIX` stands for the
//! env's mount path. A value that then still refers to `$ENV.` is evaluated as
//! a TOML+ expression with the host environment, in which `TOOLBOX_PREFIX` is
//! the mount path: `$ENV.VAR ?? "default"`. Resolving at parse time instead
//! would replace the expression by its value on the next save.

use crate::scan::{calm, is_calm, machine_free, names_machine};
use crate::strmap::{Dup, StrMap};
use crate::text::{
    digits, holds, law_digits, law_first_is_replaced, law_nothing_to_replace,
    lemma_nothing_replaced, number, occurs_at, occurs_in, replace, replaced, signed_decimal,
    signed_digits,
};
use crate::tomlp::{
    env_ref, env_ref_or, errors, evaluates_to, field, findings, kind_name, lemma_errors_add,
    lemma_refs_are_calm, parse_with_vars, plain_literal, value_source, var_name, Finding, Parsed,
    ParsedModel, Severity, Tree, TreeModel,
};
use vstd::prelude::*;

verus! {

/// Why a value could not be resolved.
#[derive(Debug, PartialEq, Eq)]
pub enum EvalError {
    /// The expression is not valid.
    Failed { expr: String, message: String },
    /// The expression has no scalar value.
    NotScalar { expr: String, found: String },
    /// Numbers in the expression are too large, or it is nested too deeply.
    TooLarge { expr: String },
}

/// What an evaluation error says.
#[verifier::ext_equal]
pub enum EvalErrorModel {
    Failed { expr: Seq<char>, message: Seq<char> },
    NotScalar { expr: Seq<char>, found: Seq<char> },
    TooLarge { expr: Seq<char> },
}

impl View for EvalError {
    type V = EvalErrorModel;

    open spec fn view(&self) -> EvalErrorModel {
        match *self {
            EvalError::Failed { expr, message } => EvalErrorModel::Failed {
                expr: expr@,
                message: message@,
            },
            EvalError::NotScalar { expr, found } => EvalErrorModel::NotScalar {
                expr: expr@,
                found: found@,
            },
            EvalError::TooLarge { expr } => EvalErrorModel::TooLarge { expr: expr@ },
        }
    }
}

impl EvalError {
    /// The text of the error.
    pub fn message(&self) -> (r: String)
        ensures
            r@ == (match self@ {
                EvalErrorModel::Failed { expr, message } => "evaluating activation value `"@ + expr
                    + "`: "@ + message,
                EvalErrorModel::NotScalar { expr, found } => "activation value `"@ + expr
                    + "` resolved to a "@ + found + ", expected a scalar"@,
                EvalErrorModel::TooLarge { expr } => "activation value `"@ + expr
                    + "` has numbers that are too large or is nested too deeply"@,
            }),
    {
        match self {
            EvalError::Failed { expr, message } => {
                let mut r = "evaluating activation value `".to_owned();
                r.push_str(expr.as_str());
                r.push_str("`: ");
                r.push_str(message.as_str());
                r
            },
            EvalError::NotScalar { expr, found } => {
                let mut r = "activation value `".to_owned();
                r.push_str(expr.as_str());
                r.push_str("` resolved to a ");
                r.push_str(found.as_str());
                r.push_str(", expected a scalar");
                r
            },
            EvalError::TooLarge { expr } => {
                let mut r = "activation value `".to_owned();
                r.push_str(expr.as_str());
                r.push_str("` has numbers that are too large or is nested too deeply");
                r
            },
        }
    }
}

/// A value with the mount path in place of `$TOOLBOX_PREFIX`.
pub open spec fn mounted(value: Seq<char>, root: Seq<char>) -> Seq<char> {
    replaced(value, "$TOOLBOX_PREFIX"@, root)
}

/// The variables that an expression can refer to.
pub open spec fn eval_vars(host: Map<Seq<char>, Seq<char>>, root: Seq<char>) -> Map<
    Seq<char>,
    Seq<char>,
> {
    host.insert("TOOLBOX_PREFIX"@, root)
}

/// The text that the parser's result gives an expression: the first error it
/// reported, or the scalar, nothing for null.
pub open spec fn evaluated(expr: Seq<char>, p: ParsedModel) -> Result<Seq<char>, EvalErrorModel> {
    if errors(p.diagnostics).len() > 0 {
        Err(EvalErrorModel::Failed { expr, message: errors(p.diagnostics)[0] })
    } else {
        match field(p.doc.config, "__v"@) {
            Some(TreeModel::Text(s)) => Ok(s),
            Some(TreeModel::Int(n)) => Ok(signed_digits(n)),
            Some(TreeModel::Float(s)) => Ok(s),
            Some(TreeModel::Bool(b)) => Ok(
                if b {
                    "true"@
                } else {
                    "false"@
                },
            ),
            Some(TreeModel::Null) => Ok(Seq::empty()),
            None => Ok(Seq::empty()),
            Some(other) => Err(EvalErrorModel::NotScalar { expr, found: kind_name(other) }),
        }
    }
}

/// `x` is what a value can resolve to.
pub open spec fn resolves_to(
    value: Seq<char>,
    root: Seq<char>,
    host: Map<Seq<char>, Seq<char>>,
    x: Result<Seq<char>, EvalErrorModel>,
) -> bool {
    let expr = mounted(value, root);
    if !occurs_in(expr, "$ENV."@) {
        x == Ok::<Seq<char>, EvalErrorModel>(expr)
    } else {
        evaluation(expr, eval_vars(host, root), x)
    }
}

/// `x` is what the parser can make of an expression; one that it cannot hold is
/// an error.
pub open spec fn evaluation(
    expr: Seq<char>,
    vars: Map<Seq<char>, Seq<char>>,
    x: Result<Seq<char>, EvalErrorModel>,
) -> bool {
    if !calm(value_source(expr)) {
        x == Err::<Seq<char>, EvalErrorModel>(EvalErrorModel::TooLarge { expr })
    } else {
        exists|p: ParsedModel| #[trigger]
            evaluates_to(value_source(expr), vars, p) && x == evaluated(expr, p)
    }
}

/// `x` is the only thing that a value can resolve to.
pub open spec fn resolves_only_to(
    value: Seq<char>,
    root: Seq<char>,
    host: Map<Seq<char>, Seq<char>>,
    x: Result<Seq<char>, EvalErrorModel>,
) -> bool {
    forall|y: Result<Seq<char>, EvalErrorModel>| #[trigger]
        resolves_to(value, root, host, y) ==> y == x
}

/// The text in a result.
pub open spec fn resolved(r: Result<String, EvalError>) -> Result<Seq<char>, EvalErrorModel> {
    match r {
        Ok(s) => Ok(s@),
        Err(e) => Err(e@),
    }
}

/// The first error among `found`.
fn first_error(found: &Vec<Finding>) -> (r: Option<String>)
    ensures
        match r {
            Some(m) => errors(findings(found@)).len() > 0 && m@ == errors(findings(found@))[0],
            None => errors(findings(found@)).len() == 0,
        },
{
    let mut i: usize = 0;
    let ghost all = findings(found@);
    while i < found.len()
        invariant
            i <= found.len(),
            all == findings(found@),
            errors(all.take(i as int)).len() == 0,
        decreases found.len() - i,
    {
        let f = &found[i];
        proof {
            assert(all.take(i + 1).drop_last() =~= all.take(i as int));
            assert(all.take(i + 1).last() == f@);
            assert(all =~= all.take(i + 1) + all.skip(i + 1));
            lemma_errors_add(all.take(i + 1), all.skip(i + 1));
        }
        if let Severity::Error = f.severity {
            return Some(f.message.clone());
        }
        i = i + 1;
    }
    assert(all.take(all.len() as int) =~= all);
    None
}

/// The text that the parser's result gives an expression.
pub fn value_of(expr: &str, parsed: &Parsed) -> (r: Result<String, EvalError>)
    ensures
        resolved(r) == evaluated(expr@, parsed@),
{
    if let Some(message) = first_error(&parsed.diagnostics) {
        return Err(EvalError::Failed { expr: expr.to_owned(), message });
    }
    match parsed.doc.config.get("__v") {
        Some(Tree::Text(s)) => Ok(s.clone()),
        Some(Tree::Int(n)) => Ok(signed_decimal(*n)),
        Some(Tree::Float(s)) => Ok(s.clone()),
        Some(Tree::Bool(b)) => if *b {
            Ok("true".to_owned())
        } else {
            Ok("false".to_owned())
        },
        Some(Tree::Null) => {
            let r = String::new();
            assert(r@ =~= Seq::<char>::empty());
            Ok(r)
        },
        None => {
            let r = String::new();
            assert(r@ =~= Seq::<char>::empty());
            Ok(r)
        },
        Some(other) => Err(EvalError::NotScalar { expr: expr.to_owned(), found: other.kind() }),
    }
}

/// Evaluate an expression with the host's variables and the mount path.
fn eval_expr(expr: &str, env_root: &str, host: &StrMap<String>) -> (r: Result<String, EvalError>)
    ensures
        evaluation(expr@, eval_vars(host@, env_root@), resolved(r)),
        machine_free(expr@) ==> forall|y: Result<Seq<char>, EvalErrorModel>| #[trigger]
            evaluation(expr@, eval_vars(host@, env_root@), y) ==> y == resolved(r),
        forall|name: Seq<char>| #[trigger]
            var_name(name) && expr@ == env_ref(name) ==> resolved(r) == Ok::<_, EvalErrorModel>(
                if eval_vars(host@, env_root@).contains_key(name) {
                    eval_vars(host@, env_root@)[name]
                } else {
                    Seq::empty()
                },
            ),
        forall|name: Seq<char>, default: Seq<char>| #[trigger]
            var_name(name) && #[trigger] plain_literal(default) && expr@ == env_ref_or(name, default)
                ==> resolved(r) == Ok::<_, EvalErrorModel>(
                if eval_vars(host@, env_root@).contains_key(name) {
                    eval_vars(host@, env_root@)[name]
                } else {
                    default
                },
            ),
{
    let mut vars = host.dup();
    vars.insert("TOOLBOX_PREFIX".to_owned(), env_root.to_owned());
    let mut source = "__v = ".to_owned();
    source.push_str(expr);
    proof {
        lemma_refs_hold(expr@);
        if machine_free(expr@) {
            lemma_value_refs(expr@);
        }
    }
    if !is_calm(source.as_str()) {
        return Err(EvalError::TooLarge { expr: expr.to_owned() });
    }
    let parsed = parse_with_vars(source.as_str(), &vars);
    let r = value_of(expr, &parsed);
    proof {
        assert(evaluates_to(value_source(expr@), eval_vars(host@, env_root@), parsed@));
        if parsed@.diagnostics.len() == 0 {
            assert(errors(parsed@.diagnostics).len() == 0);
        }
    }
    r
}

/// References, with or without a default, can be evaluated.
proof fn lemma_refs_hold(expr: Seq<char>)
    ensures
        forall|name: Seq<char>| #[trigger]
            var_name(name) && expr == env_ref(name) ==> calm(value_source(expr)),
        forall|name: Seq<char>, default: Seq<char>| #[trigger]
            var_name(name) && #[trigger] plain_literal(default) && expr == env_ref_or(name, default)
                ==> calm(value_source(expr)),
{
    assert forall|name: Seq<char>| #[trigger] var_name(name) && expr == env_ref(name) implies calm(
        value_source(expr),
    ) by {
        lemma_refs_are_calm(name, Seq::empty());
    }
    assert forall|name: Seq<char>, default: Seq<char>| #[trigger]
        var_name(name) && #[trigger] plain_literal(default) && expr == env_ref_or(
            name,
            default,
        ) implies calm(value_source(expr)) by {
        lemma_refs_are_calm(name, default);
    }
}

/// The source of an expression names nothing that the expression does not.
proof fn lemma_value_refs(expr: Seq<char>)
    requires
        machine_free(expr),
    ensures
        machine_free(value_source(expr)),
{
    reveal_strlit("__v = ");
    reveal_strlit("$NOW");
    reveal_strlit("$TODAY");
    reveal_strlit("$PLATFORM");
    reveal_strlit("$PID");
    reveal_strlit("$HOSTNAME");
    reveal_strlit("$CWD");
    let s = value_source(expr);
    assert forall|i: int| 0 <= i < s.len() implies !#[trigger] names_machine(s, i) by {
        lemma_name_moves(expr, "$NOW"@, i);
        lemma_name_moves(expr, "$TODAY"@, i);
        lemma_name_moves(expr, "$PLATFORM"@, i);
        lemma_name_moves(expr, "$PID"@, i);
        lemma_name_moves(expr, "$HOSTNAME"@, i);
        lemma_name_moves(expr, "$CWD"@, i);
        if names_machine(s, i) {
            assert(names_machine(expr, i - 6));
        }
    }
}

proof fn lemma_name_moves(expr: Seq<char>, name: Seq<char>, i: int)
    requires
        name.len() > 0,
        name[0] == '$',
    ensures
        occurs_at(value_source(expr), name, i) ==> i >= 6 && i - 6 < expr.len() && occurs_at(
            expr,
            name,
            i - 6,
        ),
{
    reveal_strlit("__v = ");
    let s = value_source(expr);
    if occurs_at(s, name, i) {
        assert(s.subrange(i, i + name.len())[0] == s[i]);
        assert(i >= 6);
        assert(expr.subrange(i - 6, i - 6 + name.len()) =~= s.subrange(i, i + name.len()));
    }
}

/// The value of an activation template for the env mounted at `env_root`.
///
/// A value without `$ENV.` is itself, with the mount path in place of
/// `$TOOLBOX_PREFIX`. A reference to a variable has its value on the host, the
/// mount path for `TOOLBOX_PREFIX`; where it is not set, the default or
/// nothing. A value that names no built-in variable of the clock, the process
/// or the machine always resolves to the same.
pub fn resolve(value: &str, env_root: &str, host: &StrMap<String>) -> (r: Result<
    String,
    EvalError,
>)
    ensures
        resolves_to(value@, env_root@, host@, resolved(r)),
        machine_free(mounted(value@, env_root@)) ==> resolves_only_to(
            value@,
            env_root@,
            host@,
            resolved(r),
        ),
        forall|name: Seq<char>| #[trigger]
            var_name(name) && value@ == env_ref(name) && !occurs_in(value@, "$TOOLBOX_PREFIX"@)
                ==> resolved(r) == Ok::<_, EvalErrorModel>(
                if eval_vars(host@, env_root@).contains_key(name) {
                    eval_vars(host@, env_root@)[name]
                } else {
                    Seq::empty()
                },
            ),
        forall|name: Seq<char>, default: Seq<char>| #[trigger]
            var_name(name) && #[trigger] plain_literal(default) && value@ == env_ref_or(
                name,
                default,
            ) && !occurs_in(value@, "$TOOLBOX_PREFIX"@) ==> resolved(r) == Ok::<_, EvalErrorModel>(
                if eval_vars(host@, env_root@).contains_key(name) {
                    eval_vars(host@, env_root@)[name]
                } else {
                    default
                },
            ),
{
    let expr = replace(value, "$TOOLBOX_PREFIX", env_root);
    proof {
        if !occurs_in(value@, "$TOOLBOX_PREFIX"@) {
            lemma_nothing_replaced(value@, "$TOOLBOX_PREFIX"@, env_root@, 0);
            assert(value@.skip(0) =~= value@);
            assert(expr@ == value@);
        }
        assert forall|name: Seq<char>| value@ == #[trigger] env_ref(name) implies occurs_in(
            value@,
            "$ENV."@,
        ) by {
            lemma_starts_with_ref(value@, name);
        }
        assert forall|name: Seq<char>, default: Seq<char>|
            value@ == #[trigger] env_ref_or(name, default) implies occurs_in(
            value@,
            "$ENV."@,
        ) by {
            let rest = name + " ?? \""@ + default + "\""@;
            assert(env_ref_or(name, default) =~= "$ENV."@ + rest);
            lemma_starts_with_ref(value@, rest);
        }
    }
    if !holds(expr.as_str(), "$ENV.") {
        return Ok(expr);
    }
    eval_expr(expr.as_str(), env_root, host)
}

proof fn lemma_starts_with_ref(s: Seq<char>, rest: Seq<char>)
    requires
        s == "$ENV."@ + rest,
    ensures
        occurs_in(s, "$ENV."@),
{
    assert(s.subrange(0, "$ENV."@.len() as int) =~= "$ENV."@);
    assert(occurs_at(s, "$ENV."@, 0));
}

/// What the host says of `TOOLBOX_PREFIX` does not count: on two hosts that
/// differ in nothing else, a value can resolve to the same, and where it names
/// no built-in variable of the clock, the process or the machine it does.
pub proof fn law_host_prefix_is_ignored(
    value: Seq<char>,
    root: Seq<char>,
    a: Map<Seq<char>, Seq<char>>,
    b: Map<Seq<char>, Seq<char>>,
    x: Result<Seq<char>, EvalErrorModel>,
)
    requires
        a.remove("TOOLBOX_PREFIX"@) == b.remove("TOOLBOX_PREFIX"@),
    ensures
        resolves_to(value, root, a, x) <==> resolves_to(value, root, b, x),
        resolves_only_to(value, root, a, x) ==> resolves_only_to(value, root, b, x),
{
    let k = "TOOLBOX_PREFIX"@;
    assert(eval_vars(a, root) =~= eval_vars(b, root)) by {
        assert forall|j: Seq<char>| true implies #[trigger] eval_vars(a, root).contains_key(j)
            == eval_vars(b, root).contains_key(j) && (eval_vars(a, root).contains_key(j)
            ==> eval_vars(a, root)[j] == eval_vars(b, root)[j]) by {
            if j != k {
                assert(a.remove(k).contains_key(j) == a.contains_key(j));
                assert(b.remove(k).contains_key(j) == b.contains_key(j));
                assert(a.contains_key(j) ==> a.remove(k)[j] == a[j]);
                assert(b.contains_key(j) ==> b.remove(k)[j] == b[j]);
            }
        }
    }
    assert forall|y: Result<Seq<char>, EvalErrorModel>| #[trigger]
        resolves_to(value, root, b, y) implies resolves_to(value, root, a, y) by {}
}

/// A value that refers to no variable resolves to itself, and one whose only
/// references are to `$TOOLBOX_PREFIX` to itself with the mount path there.
pub proof fn law_literals_pass_through(
    value: Seq<char>,
    root: Seq<char>,
    host: Map<Seq<char>, Seq<char>>,
    x: Result<Seq<char>, EvalErrorModel>,
)
    requires
        resolves_to(value, root, host, x),
        !occurs_in(mounted(value, root), "$ENV."@),
    ensures
        x == Ok::<Seq<char>, EvalErrorModel>(mounted(value, root)),
        !occurs_in(value, "$TOOLBOX_PREFIX"@) ==> mounted(value, root) == value,
{
    if !occurs_in(value, "$TOOLBOX_PREFIX"@) {
        lemma_nothing_replaced(value, "$TOOLBOX_PREFIX"@, root, 0);
        assert(value.skip(0) =~= value);
    }
}

/// In a value the mount path stands in place of each `$TOOLBOX_PREFIX`: what
/// stands before the first is kept, and what follows it is mounted in turn.
pub proof fn law_mount_path_is_put_in(a: Seq<char>, b: Seq<char>, root: Seq<char>)
    requires
        !a.contains('$'),
    ensures
        mounted(a + "$TOOLBOX_PREFIX"@ + b, root) == a + root + mounted(b, root),
        mounted(a, root) == a,
{
    reveal_strlit("$TOOLBOX_PREFIX");
    let pat = "$TOOLBOX_PREFIX"@;
    let s = a + pat + b;
    let i = a.len() as int;
    let n = pat.len() as int;
    assert(s.subrange(i, i + n) =~= pat);
    assert forall|j: int| 0 <= j < i implies #[trigger] s.subrange(j, j + n) != pat by {
        if s.subrange(j, j + n) == pat {
            assert(s.subrange(j, j + n)[0] == '$');
            assert(a.contains(a[j]));
        }
    }
    law_first_is_replaced(s, pat, root, i);
    assert(s.take(i) =~= a);
    assert(s.skip(i + n) =~= b);
    assert forall|j: int| 0 <= j && j + n <= a.len() implies n == 0 || #[trigger] a.subrange(
        j,
        j + n,
    ) != pat by {
        if a.subrange(j, j + n) == pat {
            assert(a.subrange(j, j + n)[0] == '$');
            assert(a.contains(a[j]));
        }
    }
    law_nothing_to_replace(a, pat, root);
}

/// A value without a dollar sign is what it is; one that refers to the mount path
/// and to nothing else has it there, whatever the host says.
pub proof fn law_plain_values_resolve(
    a: Seq<char>,
    b: Seq<char>,
    root: Seq<char>,
    host: Map<Seq<char>, Seq<char>>,
    x: Result<Seq<char>, EvalErrorModel>,
)
    requires
        !a.contains('$'),
        !b.contains('$'),
        !root.contains('$'),
    ensures
        resolves_to(a, root, host, x) <==> x == Ok::<Seq<char>, EvalErrorModel>(a),
        resolves_to(a + "$TOOLBOX_PREFIX"@ + b, root, host, x) <==> x == Ok::<
            Seq<char>,
            EvalErrorModel,
        >(a + root + b),
{
    law_mount_path_is_put_in(a, b, root);
    law_mount_path_is_put_in(b, b, root);
    lemma_no_reference(a);
    let s = a + root + b;
    assert(!s.contains('$')) by {
        if s.contains('$') {
            let i = choose|i: int| 0 <= i < s.len() && s[i] == '$';
            if i < a.len() {
                assert(a.contains(a[i]));
            } else if i < a.len() + root.len() {
                assert(root.contains(root[i - a.len()]));
            } else {
                assert(b.contains(b[i - a.len() - root.len()]));
            }
        }
    }
    lemma_no_reference(s);
}

proof fn lemma_no_reference(s: Seq<char>)
    requires
        !s.contains('$'),
    ensures
        !occurs_in(s, "$ENV."@),
{
    reveal_strlit("$ENV.");
    if occurs_in(s, "$ENV."@) {
        let i = choose|i: int| #[trigger] occurs_at(s, "$ENV."@, i);
        assert(s.subrange(i, i + "$ENV."@.len())[0] == '$');
        assert(s.contains(s[i]));
    }
}

/// An expression sees the variables of the host, and the mount path under
/// `TOOLBOX_PREFIX`.
pub proof fn law_expressions_see_the_host(
    host: Map<Seq<char>, Seq<char>>,
    root: Seq<char>,
    k: Seq<char>,
)
    ensures
        eval_vars(host, root).contains_key("TOOLBOX_PREFIX"@),
        eval_vars(host, root)["TOOLBOX_PREFIX"@] == root,
        k != "TOOLBOX_PREFIX"@ ==> (eval_vars(host, root).contains_key(k) <==> host.contains_key(
            k,
        )),
        k != "TOOLBOX_PREFIX"@ && host.contains_key(k) ==> eval_vars(host, root)[k] == host[k],
{
}

/// The text of an expression: a text is itself, an integer its digits, a truth
/// value its word, null nothing; a list or a table is refused, and so is what the
/// parser reports an error of, with the first of its errors.
pub proof fn law_scalar_texts(expr: Seq<char>, p: ParsedModel)
    ensures
        errors(p.diagnostics).len() > 0 ==> evaluated(expr, p) == Err::<Seq<char>, _>(
            EvalErrorModel::Failed { expr, message: errors(p.diagnostics)[0] },
        ),
        errors(p.diagnostics).len() == 0 ==> match field(p.doc.config, "__v"@) {
            Some(TreeModel::Text(s)) => evaluated(expr, p) == Ok::<_, EvalErrorModel>(s),
            Some(TreeModel::Float(s)) => evaluated(expr, p) == Ok::<_, EvalErrorModel>(s),
            Some(TreeModel::Int(n)) => evaluated(expr, p) is Ok && (n >= 0 ==> number(
                evaluated(expr, p)->Ok_0,
            ) == n) && (n < 0 ==> evaluated(expr, p)->Ok_0.len() > 0 && evaluated(
                expr,
                p,
            )->Ok_0[0] == '-' && number(evaluated(expr, p)->Ok_0.skip(1)) == -n),
            Some(TreeModel::Bool(b)) => evaluated(expr, p) == Ok::<_, EvalErrorModel>(
                if b {
                    "true"@
                } else {
                    "false"@
                },
            ),
            Some(TreeModel::List(_)) => evaluated(expr, p) is Err,
            Some(TreeModel::Dict(_)) => evaluated(expr, p) is Err,
            _ => evaluated(expr, p) is Ok && evaluated(expr, p)->Ok_0.len() == 0,
        },
{
    reveal_strlit("-");
    if let Some(TreeModel::Int(n)) = field(p.doc.config, "__v"@) {
        if n >= 0 {
            law_digits(n as nat);
        } else {
            law_digits((-n) as nat);
            assert(("-"@ + digits((-n) as nat)).skip(1) =~= digits((-n) as nat));
        }
    }
}

/// What was resolved says its text, and what failed its error.
pub proof fn law_resolved_texts(s: String, e: EvalError)
    ensures
        resolved(Ok(s)) == Ok::<_, EvalErrorModel>(s@),
        resolved(Err(e)) == Err::<Seq<char>, _>(e@),
{
}

} // verus!
