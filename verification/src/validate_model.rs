//! The mathematical model of the syntax validator/desugarer: spec functions
//! giving the exact sequence of diagnostics each form produces, and a
//! relation describing the in-place rewrite (type-placeholder insertion and
//! `function` desugaring) that validation applies to a token tree.

use vstd::prelude::*;

use crate::errors::Error;
use crate::errors::SpecError;
use crate::errors::error_matches;
use crate::errors::msg_function_name;
use crate::errors::msg_function_params;
use crate::errors::msg_function_params_idents;
use crate::errors::msg_lambda_body;
use crate::errors::msg_lambda_params;
use crate::errors::msg_lambda_params_idents;
use crate::errors::msg_procedure_name;
use crate::errors::msg_variable_name;
use crate::errors::msg_variable_value;
use crate::errors::spec_error_at;
use crate::source_info::synthetic_source_info;
use crate::token::Token;
use crate::token::TokenKind;
use crate::token::Type;

verus! {

// ------------------------------------------------------------------
// Shapes of forms
// ------------------------------------------------------------------

/// Whether the first child of a form is an identifier spelling `name`.
pub open spec fn head_is(s: Seq<Token>, name: Seq<char>) -> bool {
    &&& s.len() > 0
    &&& s[0].kind matches TokenKind::Identifier(id) && id@ == name
}

/// The children of a group token.
pub open spec fn children_of(t: Token) -> Seq<Token>
    recommends
        t.kind is SExpr,
{
    t.kind->SExpr_0@
}

/// Whether the form carries a name: its position 1 is an identifier.
pub open spec fn has_name_at_1(s: Seq<Token>) -> bool {
    s.len() > 1 && s[1].kind is Identifier
}

/// Whether the form already carries an explicit type annotation at
/// position 2.
pub open spec fn has_type_at_2(s: Seq<Token>) -> bool {
    s.len() > 2 && s[2].kind is TypeExpr
}

/// The synthetic `Unknown` type placeholder the validator inserts.
pub open spec fn unknown_type_token() -> Token {
    Token { kind: TokenKind::TypeExpr(Type::Unknown), si: synthetic_source_info() }
}

/// Name/type normalization: if position 2 is not a type annotation, a
/// synthetic `Unknown` placeholder is inserted there (or at the end of a
/// form too short to have a position 2), shifting later positions right.
pub open spec fn normalize2(s: Seq<Token>) -> Seq<Token> {
    if has_type_at_2(s) {
        s
    } else if s.len() >= 2 {
        s.insert(2, unknown_type_token())
    } else {
        s.insert(s.len() as int, unknown_type_token())
    }
}

/// The position, in the un-normalized form, of the slot that follows the
/// name/type prefix: 3 when an explicit type annotation is present, else 2.
pub open spec fn after_prefix_index(s: Seq<Token>) -> int {
    if has_type_at_2(s) {
        3
    } else {
        2
    }
}

/// Whether every child of a parameter-list group is an identifier.
pub open spec fn all_params_idents(p: Token) -> bool {
    &&& p.kind matches TokenKind::SExpr(v) && (forall|i: int|
        0 <= i < v@.len() ==> (#[trigger] v@[i]).kind is Identifier)
}

// ------------------------------------------------------------------
// The diagnostics each form produces
// ------------------------------------------------------------------

/// The diagnostics validating a token produces, in order. Only groups are
/// inspected; any other token validates silently.
pub open spec fn verrs_token(t: Token) -> Seq<SpecError>
    decreases t, 2int, 0int,
{
    match t.kind {
        TokenKind::SExpr(v) => {
            let s = v@;
            if head_is(s, "function"@) {
                verrs_function(s)
            } else if head_is(s, "procedure"@) {
                verrs_procedure(s)
            } else if head_is(s, "let"@) {
                verrs_let(s)
            } else if head_is(s, "fun"@) {
                verrs_fun(s)
            } else {
                verrs_list(s, 1)
            }
        },
        _ => seq![],
    }
}

/// The diagnostics of validating the children of a form from position
/// `from` onward, concatenated in order.
pub open spec fn verrs_list(s: Seq<Token>, from: int) -> Seq<SpecError>
    decreases s, 0int, s.len() - from,
{
    if 0 <= from < s.len() {
        verrs_token(s[from]) + verrs_list(s, from + 1)
    } else {
        seq![]
    }
}

/// `{let name [type] initializer}`: position 1 must be an identifier, the
/// initializer (after normalization, position 3) must be present and is
/// validated recursively. Positions past the initializer are ignored.
pub open spec fn verrs_let(s: Seq<Token>) -> Seq<SpecError>
    decreases s, 1int, 0int,
{
    let si0 = s[0].si;
    let name_errs: Seq<SpecError> = if has_name_at_1(s) {
        seq![]
    } else {
        seq![spec_error_at(si0, msg_variable_name())]
    };
    let ii = after_prefix_index(s);
    if s.len() > ii {
        name_errs + verrs_token(s[ii])
    } else {
        name_errs + seq![spec_error_at(si0, msg_variable_value())]
    }
}

/// `{procedure name [type] body…}`: position 1 must be an identifier;
/// every position from 3 (after normalization) onward is an independent
/// body form, validated recursively; zero body forms is legal.
pub open spec fn verrs_procedure(s: Seq<Token>) -> Seq<SpecError>
    decreases s, 1int, 0int,
{
    let si0 = s[0].si;
    let name_errs: Seq<SpecError> = if has_name_at_1(s) {
        seq![]
    } else {
        seq![spec_error_at(si0, msg_procedure_name())]
    };
    name_errs + verrs_list(s, after_prefix_index(s))
}

/// `{fun (params…) body…}`: position 1 must be a group of identifiers; at
/// least one body form must follow, each validated recursively.
pub open spec fn verrs_fun(s: Seq<Token>) -> Seq<SpecError>
    decreases s, 1int, 0int,
{
    let si0 = s[0].si;
    let has_params = s.len() > 1 && s[1].kind is SExpr;
    let param_errs: Seq<SpecError> = if !has_params {
        seq![spec_error_at(si0, msg_lambda_params())]
    } else if !all_params_idents(s[1]) {
        seq![spec_error_at(si0, msg_lambda_params_idents())]
    } else {
        seq![]
    };
    if s.len() >= 3 {
        param_errs + verrs_list(s, 2)
    } else {
        param_errs + seq![spec_error_at(si0, msg_lambda_body())]
    }
}

/// `{function name [type] (params…) body…}`: name and parameter-list
/// checks run unconditionally; when the parameter list is a group of
/// identifiers the form is rewritten to a `let`-bound lambda, and the new
/// lambda child is validated in turn (which demands at least one body form
/// and validates each one).
pub open spec fn verrs_function(s: Seq<Token>) -> Seq<SpecError>
    decreases s, 1int, 0int,
{
    let si0 = s[0].si;
    let pi = after_prefix_index(s);
    let name_errs: Seq<SpecError> = if has_name_at_1(s) {
        seq![]
    } else {
        seq![spec_error_at(si0, msg_function_name())]
    };
    let has_params = s.len() > pi && s[pi].kind is SExpr;
    let param_errs: Seq<SpecError> = if !has_params {
        seq![spec_error_at(si0, msg_function_params())]
    } else if !all_params_idents(s[pi]) {
        seq![spec_error_at(si0, msg_function_params_idents())]
    } else {
        seq![]
    };
    let rewrite_errs: Seq<SpecError> = if has_params && all_params_idents(s[pi]) {
        if s.len() > pi + 1 {
            verrs_list(s, pi + 1)
        } else {
            seq![spec_error_at(synthetic_source_info(), msg_lambda_body())]
        }
    } else {
        seq![]
    };
    name_errs + param_errs + rewrite_errs
}

// ------------------------------------------------------------------
// The tree after validation
// ------------------------------------------------------------------

/// How validating a token transforms it: non-groups are untouched; groups
/// keep their position and are rewritten child-wise by their head form.
pub open spec fn vtree_token(t: Token, r: Token) -> bool
    decreases t, 2int, 0int,
{
    match t.kind {
        TokenKind::SExpr(v) => {
            let s = v@;
            &&& r.si == t.si
            &&& r.kind matches TokenKind::SExpr(rv) && {
                let q = rv@;
                if head_is(s, "function"@) {
                    vtree_function(s, q)
                } else if head_is(s, "procedure"@) {
                    vtree_procedure(s, q)
                } else if head_is(s, "let"@) {
                    vtree_let(s, q)
                } else if head_is(s, "fun"@) {
                    vtree_fun(s, q)
                } else {
                    vtree_call(s, q)
                }
            }
        },
        _ => r == t,
    }
}

/// A call form: the head is left untouched (it may later denote a macro or
/// higher-order value); every argument position is validated in place.
pub open spec fn vtree_call(s: Seq<Token>, q: Seq<Token>) -> bool
    decreases s, 1int, 0int,
{
    &&& q.len() == s.len()
    &&& s.len() > 0 ==> q[0] == s[0]
    &&& forall|i: int| 1 <= i < s.len() ==> vtree_token(#[trigger] s[i], q[i])
}

/// A `let` form: normalized, with the initializer (position 3) validated
/// in place and everything else untouched.
pub open spec fn vtree_let(s: Seq<Token>, q: Seq<Token>) -> bool
    decreases s, 1int, 0int,
{
    let n = normalize2(s);
    &&& q.len() == n.len()
    &&& forall|i: int| 0 <= i < n.len() && i != 3 ==> #[trigger] q[i] == n[i]
    &&& s.len() > after_prefix_index(s) ==> vtree_token(s[after_prefix_index(s)], q[3])
    &&& s.len() <= after_prefix_index(s) && n.len() > 3 ==> q[3] == n[3]
}

/// A `procedure` form: normalized, with every body form (positions 3
/// onward) validated in place.
pub open spec fn vtree_procedure(s: Seq<Token>, q: Seq<Token>) -> bool
    decreases s, 1int, 0int,
{
    let n = normalize2(s);
    &&& q.len() == n.len()
    &&& forall|i: int| 0 <= i < 3 && i < n.len() ==> #[trigger] q[i] == n[i]
    &&& forall|k: int|
        after_prefix_index(s) <= k < s.len() ==> vtree_token(
            s[k],
            #[trigger] q[k + n.len() - s.len()],
        )
}

/// A `fun` form: no slots are inserted; every body form (positions 2
/// onward) is validated in place.
pub open spec fn vtree_fun(s: Seq<Token>, q: Seq<Token>) -> bool
    decreases s, 1int, 0int,
{
    &&& q.len() == s.len()
    &&& forall|i: int| 0 <= i < 2 && i < s.len() ==> #[trigger] q[i] == s[i]
    &&& forall|i: int| 2 <= i < s.len() ==> vtree_token(s[i], #[trigger] q[i])
}

/// A `function` form: normalized; if the parameter list is a group of
/// identifiers, the head becomes `let` (keeping its position), the
/// parameter list and every body form are detached and repackaged in
/// original order as a trailing `{fun (params…) body…}` child, and that
/// new child is validated in turn. Otherwise only the normalization takes
/// effect.
pub open spec fn vtree_function(s: Seq<Token>, q: Seq<Token>) -> bool
    decreases s, 1int, 0int,
{
    let n = normalize2(s);
    let pi = after_prefix_index(s);
    let has_params = s.len() > pi && s[pi].kind is SExpr;
    if has_params && all_params_idents(s[pi]) {
        &&& q.len() == 4
        &&& q[0].kind matches TokenKind::Identifier(id) && id@ == "let"@
        &&& q[0].si == s[0].si
        &&& q[1] == n[1]
        &&& q[2] == n[2]
        &&& q[3].si == synthetic_source_info()
        &&& q[3].kind matches TokenKind::SExpr(bv) && {
            let b = bv@;
            &&& b.len() == n.len() - 2
            &&& b[0].kind matches TokenKind::Identifier(f) && f@ == "fun"@
            &&& b[0].si == synthetic_source_info()
            &&& b[1] == s[pi]
            &&& forall|j: int| 2 <= j < b.len() ==> vtree_token(s[pi + j - 1], #[trigger] b[j])
        }
    } else {
        q =~= n
    }
}

// ------------------------------------------------------------------
// Appending diagnostics
// ------------------------------------------------------------------

/// Whether `new` is `old` with executable errors carrying exactly the
/// modelled diagnostics `gs` appended, in order.
pub open spec fn errors_appended(old: Seq<Error>, new: Seq<Error>, gs: Seq<SpecError>) -> bool {
    &&& new.len() == old.len() + gs.len()
    &&& forall|i: int| 0 <= i < old.len() ==> new[i] == old[i]
    &&& forall|i: int| 0 <= i < gs.len() ==> error_matches(#[trigger] new[old.len() + i], gs[i])
}

/// Appending twice appends the concatenation.
pub proof fn lemma_errors_appended_trans(
    a: Seq<Error>,
    b: Seq<Error>,
    c: Seq<Error>,
    g1: Seq<SpecError>,
    g2: Seq<SpecError>,
)
    requires
        errors_appended(a, b, g1),
        errors_appended(b, c, g2),
    ensures
        errors_appended(a, c, g1 + g2),
{
    assert forall|i: int| 0 <= i < (g1 + g2).len() implies error_matches(
        #[trigger] c[a.len() + i],
        (g1 + g2)[i],
    ) by {
        if i < g1.len() {
            assert(c[a.len() + i] == b[a.len() + i]);
        } else {
            assert(c[a.len() + i] == c[b.len() + (i - g1.len())]);
        }
    }
}

/// Appending nothing changes nothing.
pub proof fn lemma_errors_appended_refl(a: Seq<Error>)
    ensures
        errors_appended(a, a, seq![]),
{
}


/// The name a validated binding form is registered under: the identifier
/// at its position 1.
pub open spec fn form_name(t: Token) -> Seq<char>
    recommends
        t.kind is SExpr,
        children_of(t).len() > 1,
        children_of(t)[1].kind is Identifier,
{
    children_of(t)[1].kind->Identifier_0@
}

/// A form that validated without diagnostics and now reads `let` or
/// `procedure` at its head carries its name at position 1, so symbol-table
/// registration is always possible.
pub proof fn lemma_validated_form_name(t: Token, r: Token, name: Seq<char>)
    requires
        vtree_token(t, r),
        verrs_token(t).len() == 0,
        t.kind is SExpr,
        r.kind is SExpr,
        head_is(children_of(r), name),
        name == "let"@ || name == "procedure"@,
    ensures
        children_of(r).len() > 1,
        children_of(r)[1].kind is Identifier,
{
    reveal_strlit("let");
    reveal_strlit("procedure");
    reveal_strlit("fun");
    let s = children_of(t);
    let q = children_of(r);
    let n = normalize2(s);
    if head_is(s, "function"@) {
        assert(has_name_at_1(s));
        if !has_type_at_2(s) && s.len() >= 2 {
            s.insert_ensures(2, unknown_type_token());
        }
        let pi = after_prefix_index(s);
        assert(s.len() > pi && s[pi].kind is SExpr && all_params_idents(s[pi])) by {
            if !(s.len() > pi && s[pi].kind is SExpr && all_params_idents(s[pi])) {
                assert(verrs_function(s).len() > 0);
            }
        }
        assert(q[1] == n[1]);
        assert(n[1] == s[1]);
    } else if head_is(s, "procedure"@) {
        assert(has_name_at_1(s));
        if !has_type_at_2(s) && s.len() >= 2 {
            s.insert_ensures(2, unknown_type_token());
        }
        assert(q[1] == n[1]);
        assert(n[1] == s[1]);
    } else if head_is(s, "let"@) {
        assert(has_name_at_1(s));
        if !has_type_at_2(s) && s.len() >= 2 {
            s.insert_ensures(2, unknown_type_token());
        }
        assert(q[1] == n[1]);
        assert(n[1] == s[1]);
    } else if head_is(s, "fun"@) {
        assert(q[0] == s[0]);
        assert(false);
    } else {
        assert(s.len() > 0 ==> q[0] == s[0]);
        assert(false);
    }
}

} // verus!
