//! The syntax validator/desugarer: walks top-level forms, enforces the
//! grammar, inserts missing type placeholders, rewrites sugared `function`
//! definitions into `let`-bound lambdas, and accumulates diagnostics.
//! Validation never aborts: every form is attempted regardless of prior
//! errors, and all diagnostics come back as one flat sequence.

use vstd::prelude::*;

use crate::program::Module;
use crate::program::Program;
use crate::program::expressions_after;
use crate::program::lemma_registered_after_congruent;
use crate::program::registered_after;
use crate::validate_model::lemma_validated_form_name;
use crate::errors::Error;
use crate::errors::SpecError;
use crate::source_info::SourceInfo;
use crate::token::Token;
use crate::token::TokenKind;
use crate::token::Type;
use crate::validate_model::after_prefix_index;
use crate::validate_model::all_params_idents;
use crate::validate_model::children_of;
use crate::validate_model::errors_appended;
use crate::validate_model::lemma_errors_appended_trans;
use crate::validate_model::has_name_at_1;
use crate::validate_model::has_type_at_2;
use crate::validate_model::head_is;
use crate::validate_model::normalize2;
use crate::validate_model::unknown_type_token;
use crate::validate_model::verrs_list;
use crate::validate_model::verrs_token;
use crate::validate_model::vtree_token;

verus! {

/// Validates one token: only groups are inspected; any other token is
/// returned untouched.
fn validate_token_owned(t: Token, errors: &mut Vec<Error>) -> (res: Token)
    ensures
        vtree_token(t, res),
        errors_appended(old(errors)@, final(errors)@, verrs_token(t)),
    decreases t, 3int,
{
    if t.is_sexpr() {
        validate_sexpr_owned(t, errors)
    } else {
        t
    }
}

/// Dispatches a group on its head identifier: `function`, `procedure`,
/// `let`, `fun`, or — anything else — a call.
fn validate_sexpr_owned(t: Token, errors: &mut Vec<Error>) -> (res: Token)
    requires
        t.kind is SExpr,
    ensures
        vtree_token(t, res),
        errors_appended(old(errors)@, final(errors)@, verrs_token(t)),
    decreases t, 2int,
{
    if t.match_first_identifier("function") {
        validate_function_owned(t, errors)
    } else if t.match_first_identifier("procedure") {
        validate_procedure_owned(t, errors)
    } else if t.match_first_identifier("let") {
        validate_let_owned(t, errors)
    } else if t.match_first_identifier("fun") {
        validate_fun_owned(t, errors)
    } else {
        validate_call_owned(t, errors)
    }
}

/// A call form: the head is never validated (it may later denote a macro
/// or a higher-order value); every argument position is validated
/// recursively.
fn validate_call_owned(t: Token, errors: &mut Vec<Error>) -> (res: Token)
    requires
        t.kind is SExpr,
        !head_is(children_of(t), "function"@),
        !head_is(children_of(t), "procedure"@),
        !head_is(children_of(t), "let"@),
        !head_is(children_of(t), "fun"@),
    ensures
        vtree_token(t, res),
        errors_appended(old(errors)@, final(errors)@, verrs_token(t)),
    decreases t, 1int,
{
    let ghost s0 = children_of(t);
    let Token { kind, si } = t;
    match kind {
        TokenKind::SExpr(mut v) => {
            let ghost gdone: Seq<SpecError> = seq![];
            let mut i: usize = 1;
            while i < v.len()
                invariant
                    1 <= i,
                    t.kind is SExpr,
                    s0 == children_of(t),
                    v@.len() == s0.len(),
                    i > s0.len() ==> i == 1,
                    s0.len() > 0 ==> v@[0] == s0[0],
                    forall|k: int| 1 <= k < i && k < s0.len() ==> vtree_token(
                        s0[k],
                        #[trigger] v@[k],
                    ),
                    forall|k: int| i <= k < s0.len() ==> #[trigger] v@[k] == s0[k],
                    errors_appended(old(errors)@, errors@, gdone),
                    gdone + verrs_list(s0, i as int) == verrs_list(s0, 1),
                decreases v@.len() - i,
            {
                let ghost vprev = v@;
                let ghost eprev = errors@;
                let child = v.remove(i);
                proof {
                    assert(child == s0[i as int]);
                    let vv = t.kind->SExpr_0;
                    assert(decreases_to!(t => t.kind));
                    assert(decreases_to!(t.kind => t.kind->SExpr_0));
                    assert(decreases_to!(t => vv));
                    assert(decreases_to!(vv => vv@));
                    assert(decreases_to!(vv@ => vv@[i as int]));
                    assert(vv@[i as int] == child);
                    assert(decreases_to!(t => child));
                }
                let child2 = validate_token_owned(child, errors);
                v.insert(i, child2);
                proof {
                    vprev.remove(i as int).insert_ensures(i as int, child2);
                    vprev.remove_ensures(i as int);
                    lemma_errors_appended_trans(
                        old(errors)@,
                        eprev,
                        errors@,
                        gdone,
                        verrs_token(s0[i as int]),
                    );
                    gdone = gdone + verrs_token(s0[i as int]);
                    assert(gdone + verrs_list(s0, i + 1) =~= verrs_list(s0, 1));
                }
                i = i + 1;
            }
            proof {
                assert(gdone + seq![] =~= gdone);
            }
            Token { kind: TokenKind::SExpr(v), si }
        },
        _ => vstd::pervasive::unreached(),
    }
}

/// A lambda form `{fun (params…) body…}`: the parameter list must be a
/// group of identifiers, at least one body form must follow, and each body
/// form is validated recursively. Nothing is inserted or rewritten.
fn validate_fun_owned(t: Token, errors: &mut Vec<Error>) -> (res: Token)
    requires
        t.kind is SExpr,
        head_is(children_of(t), "fun"@),
        !head_is(children_of(t), "function"@),
        !head_is(children_of(t), "procedure"@),
        !head_is(children_of(t), "let"@),
    ensures
        vtree_token(t, res),
        errors_appended(old(errors)@, final(errors)@, verrs_token(t)),
    decreases t, 1int,
{
    let ghost s0 = children_of(t);
    let Token { kind, si } = t;
    match kind {
        TokenKind::SExpr(mut v) => {
            let si0 = v[0].si;
            let mut has_params = false;
            let mut valid_params = true;
            if v.len() > 1 {
                if let Some(params) = v[1].sexpr() {
                    has_params = true;
                    let mut j: usize = 0;
                    while j < params.len()
                        invariant
                            0 <= j <= params@.len(),
                            valid_params == (forall|k: int|
                                0 <= k < j ==> (#[trigger] params@[k]).kind is Identifier),
                        decreases params@.len() - j,
                    {
                        if !params[j].is_identifier() {
                            valid_params = false;
                        }
                        j = j + 1;
                    }
                }
            }
            let ghost gpar: Seq<SpecError> = if !has_params {
                seq![crate::errors::spec_error_at(si0, crate::errors::msg_lambda_params())]
            } else if !all_params_idents(s0[1]) {
                seq![
                    crate::errors::spec_error_at(
                        si0,
                        crate::errors::msg_lambda_params_idents(),
                    ),
                ]
            } else {
                seq![]
            };
            if !has_params {
                errors.push(
                    Error::new("Lambda functions require a parameter list".to_owned(), si0),
                );
            } else if !valid_params {
                errors.push(
                    Error::new("Parameters need to be valid identifiers".to_owned(), si0),
                );
            }
            proof {
                assert(errors_appended(old(errors)@, errors@, gpar));
            }
            if v.len() >= 3 {
                let ghost mut gdone: Seq<SpecError> = seq![];
                let mut i: usize = 2;
                proof {
                    assert(gpar + gdone =~= gpar);
                }
                while i < v.len()
                    invariant
                        2 <= i <= s0.len(),
                        t.kind is SExpr,
                        s0 == children_of(t),
                        v@.len() == s0.len(),
                        s0.len() >= 3,
                        forall|k: int| 0 <= k < 2 ==> #[trigger] v@[k] == s0[k],
                        forall|k: int| 2 <= k < i ==> vtree_token(s0[k], #[trigger] v@[k]),
                        forall|k: int| i <= k < s0.len() ==> #[trigger] v@[k] == s0[k],
                        errors_appended(old(errors)@, errors@, gpar + gdone),
                        gdone + verrs_list(s0, i as int) == verrs_list(s0, 2),
                    decreases v@.len() - i,
                {
                    let ghost vprev = v@;
                    let ghost eprev = errors@;
                    let child = v.remove(i);
                    proof {
                        assert(child == s0[i as int]);
                        let vv = t.kind->SExpr_0;
                        assert(decreases_to!(t => t.kind));
                        assert(decreases_to!(t.kind => t.kind->SExpr_0));
                        assert(decreases_to!(t => vv));
                        assert(decreases_to!(vv => vv@));
                        assert(decreases_to!(vv@ => vv@[i as int]));
                        assert(vv@[i as int] == child);
                        assert(decreases_to!(t => child));
                    }
                    let child2 = validate_token_owned(child, errors);
                    v.insert(i, child2);
                    proof {
                        vprev.remove(i as int).insert_ensures(i as int, child2);
                        vprev.remove_ensures(i as int);
                        let gt = verrs_token(s0[i as int]);
                        lemma_errors_appended_trans(
                            old(errors)@,
                            eprev,
                            errors@,
                            gpar + gdone,
                            gt,
                        );
                        assert((gpar + gdone) + gt =~= gpar + (gdone + gt));
                        gdone = gdone + gt;
                        assert(gdone + verrs_list(s0, i + 1) =~= verrs_list(s0, 2));
                    }
                    i = i + 1;
                }
                proof {
                    assert(gdone + seq![] =~= gdone);
                    assert(gpar + verrs_list(s0, 2) =~= gpar + gdone);
                }
            } else {
                errors.push(
                    Error::new(
                        "Lambda functions require at least one expression in them".to_owned(),
                        si0,
                    ),
                );
                proof {
                    assert(errors_appended(
                        old(errors)@,
                        errors@,
                        gpar + seq![
                            crate::errors::spec_error_at(si0, crate::errors::msg_lambda_body()),
                        ],
                    ));
                }
            }
            let res = Token { kind: TokenKind::SExpr(v), si };
            proof {
                assert(vtree_token(t, res));
                assert(errors_appended(old(errors)@, errors@, verrs_token(t)));
            }
            res
        },
        _ => vstd::pervasive::unreached(),
    }
}


/// Inserts a synthetic `Unknown` type placeholder at position 2 unless one
/// is already there (or at the end of a form too short to have a
/// position 2).
fn normalize_type_slot(v: &mut Vec<Token>)
    ensures
        final(v)@ == normalize2(old(v)@),
{
    let has_type = v.len() > 2 && v[2].is_type();
    if !has_type {
        let ins: usize = if v.len() >= 2 {
            2
        } else {
            v.len()
        };
        v.insert(ins, Token { kind: TokenKind::TypeExpr(Type::Unknown), si: SourceInfo::new(0, 0, 0) });
    }
}

/// A `{let name [type] initializer}` form: position 1 must be an
/// identifier; after normalization the initializer at position 3 must be
/// present and is validated recursively.
fn validate_let_owned(t: Token, errors: &mut Vec<Error>) -> (res: Token)
    requires
        t.kind is SExpr,
        head_is(children_of(t), "let"@),
        !head_is(children_of(t), "function"@),
        !head_is(children_of(t), "procedure"@),
    ensures
        vtree_token(t, res),
        errors_appended(old(errors)@, final(errors)@, verrs_token(t)),
    decreases t, 1int,
{
    let ghost s0 = children_of(t);
    let Token { kind, si } = t;
    match kind {
        TokenKind::SExpr(mut v) => {
            let si0 = v[0].si;
            let has_name = v.len() > 1 && v[1].is_identifier();
            if !has_name {
                errors.push(Error::new("Variables require a name".to_owned(), si0));
            }
            normalize_type_slot(&mut v);
            proof {
                if !has_type_at_2(s0) && s0.len() >= 2 {
                    s0.insert_ensures(2, unknown_type_token());
                }
            }
            if v.len() > 3 {
                let ghost vprev = v@;
                let ghost eprev = errors@;
                let init = v.remove(3);
                proof {
                    assert(init == s0[after_prefix_index(s0)]);
                    let vv = t.kind->SExpr_0;
                    let ghost ii = after_prefix_index(s0);
                    assert(decreases_to!(t => vv));
                    assert(decreases_to!(vv => vv@));
                    assert(decreases_to!(vv@ => vv@[ii]));
                    assert(vv@[ii] == init);
                    assert(decreases_to!(t => init));
                }
                let init2 = validate_token_owned(init, errors);
                v.insert(3, init2);
                proof {
                    vprev.remove(3).insert_ensures(3, init2);
                    vprev.remove_ensures(3);
                    lemma_errors_appended_trans(
                        old(errors)@,
                        eprev,
                        errors@,
                        if has_name_at_1(s0) {
                            seq![]
                        } else {
                            seq![
                                crate::errors::spec_error_at(
                                    si0,
                                    crate::errors::msg_variable_name(),
                                ),
                            ]
                        },
                        verrs_token(init),
                    );
                }
            } else {
                errors.push(Error::new("Variables require an initial value".to_owned(), si0));
            }
            let res = Token { kind: TokenKind::SExpr(v), si };
            proof {
                assert(vtree_token(t, res));
                assert(errors_appended(old(errors)@, errors@, verrs_token(t)));
            }
            res
        },
        _ => vstd::pervasive::unreached(),
    }
}

/// A `{procedure name [type] body…}` form: position 1 must be an
/// identifier; every position from 3 onward (after normalization) is an
/// independent body form, validated recursively; zero body forms is legal.
#[verifier::rlimit(50)]
fn validate_procedure_owned(t: Token, errors: &mut Vec<Error>) -> (res: Token)
    requires
        t.kind is SExpr,
        head_is(children_of(t), "procedure"@),
        !head_is(children_of(t), "function"@),
    ensures
        vtree_token(t, res),
        errors_appended(old(errors)@, final(errors)@, verrs_token(t)),
    decreases t, 1int,
{
    let ghost s0 = children_of(t);
    let Token { kind, si } = t;
    match kind {
        TokenKind::SExpr(mut v) => {
            let si0 = v[0].si;
            let has_name = v.len() > 1 && v[1].is_identifier();
            let ghost gname: Seq<SpecError> = if has_name_at_1(s0) {
                seq![]
            } else {
                seq![crate::errors::spec_error_at(si0, crate::errors::msg_procedure_name())]
            };
            if !has_name {
                errors.push(Error::new("Procedures require a name".to_owned(), si0));
            }
            normalize_type_slot(&mut v);
            let ghost n = normalize2(s0);
            let ghost off = n.len() - s0.len();
            proof {
                if !has_type_at_2(s0) && s0.len() >= 2 {
                    s0.insert_ensures(2, unknown_type_token());
                }
                assert(errors_appended(old(errors)@, errors@, gname));
                assert(gname + seq![] =~= gname);
            }
            let ghost mut gdone: Seq<SpecError> = seq![];
            let mut i: usize = 3;
            while i < v.len()
                invariant
                    3 <= i,
                    t.kind is SExpr,
                    s0 == children_of(t),
                    n == normalize2(s0),
                    off == n.len() - s0.len(),
                    0 <= off <= 1,
                    v@.len() == n.len(),
                    i > n.len() ==> i == 3,
                    forall|k: int| 0 <= k < 3 && k < n.len() ==> #[trigger] v@[k] == n[k],
                    forall|k: int|
                        after_prefix_index(s0) <= k < s0.len() && k + off < i ==> vtree_token(
                            s0[k],
                            #[trigger] v@[k + off],
                        ),
                    forall|k: int| i <= k < n.len() ==> #[trigger] v@[k] == n[k],
                    forall|k: int|
                        after_prefix_index(s0) <= k < s0.len() ==> n[k + off] == #[trigger] s0[k],
                    errors_appended(old(errors)@, errors@, gname + gdone),
                    gdone + verrs_list(s0, (i - off) as int) == verrs_list(
                        s0,
                        after_prefix_index(s0),
                    ),
                decreases v@.len() - i,
            {
                let ghost vprev = v@;
                let ghost eprev = errors@;
                let child = v.remove(i);
                proof {
                    assert(child == s0[i - off]);
                    let vv = t.kind->SExpr_0;
                    assert(decreases_to!(t => t.kind));
                    assert(decreases_to!(t.kind => t.kind->SExpr_0));
                    assert(decreases_to!(t => vv));
                    assert(decreases_to!(vv => vv@));
                    assert(decreases_to!(vv@ => vv@[i - off]));
                    assert(vv@[i - off] == child);
                    assert(decreases_to!(t => child));
                }
                let child2 = validate_token_owned(child, errors);
                v.insert(i, child2);
                proof {
                    vprev.remove(i as int).insert_ensures(i as int, child2);
                    vprev.remove_ensures(i as int);
                    let gt = verrs_token(s0[i - off]);
                    lemma_errors_appended_trans(
                        old(errors)@,
                        eprev,
                        errors@,
                        gname + gdone,
                        gt,
                    );
                    assert((gname + gdone) + gt =~= gname + (gdone + gt));
                    gdone = gdone + gt;
                    assert(gdone + verrs_list(s0, i + 1 - off) =~= verrs_list(
                        s0,
                        after_prefix_index(s0),
                    ));
                }
                i = i + 1;
            }
            proof {
                assert(gdone + seq![] =~= gdone);
                assert(gname + verrs_list(s0, after_prefix_index(s0)) =~= gname + gdone);
            }
            let res = Token { kind: TokenKind::SExpr(v), si };
            proof {
                assert(vtree_token(t, res));
                assert(errors_appended(old(errors)@, errors@, verrs_token(t)));
            }
            res
        },
        _ => vstd::pervasive::unreached(),
    }
}


/// A sugared `{function name [type] (params…) body…}` definition. The
/// name and parameter-list checks always run; when the parameter list is a
/// group of identifiers the form is rewritten in place to
/// `{let name type {fun (params…) body…}}`, keeping the body forms in
/// their original left-to-right order, and the new lambda child is
/// validated in turn.
#[verifier::rlimit(50)]
fn validate_function_owned(t: Token, errors: &mut Vec<Error>) -> (res: Token)
    requires
        t.kind is SExpr,
        head_is(children_of(t), "function"@),
    ensures
        vtree_token(t, res),
        errors_appended(old(errors)@, final(errors)@, verrs_token(t)),
    decreases t, 1int,
{
    let ghost s0 = children_of(t);
    let Token { kind, si } = t;
    match kind {
        TokenKind::SExpr(mut v) => {
            let si0 = v[0].si;
            let has_name = v.len() > 1 && v[1].is_identifier();
            let has_type = v.len() > 2 && v[2].is_type();
            let pi: usize = if has_type {
                3
            } else {
                2
            };
            let mut has_params = false;
            let mut valid_params = true;
            if pi < v.len() {
                if let Some(params) = v[pi].sexpr() {
                    has_params = true;
                    let mut j: usize = 0;
                    while j < params.len()
                        invariant
                            0 <= j <= params@.len(),
                            valid_params == (forall|k: int|
                                0 <= k < j ==> (#[trigger] params@[k]).kind is Identifier),
                        decreases params@.len() - j,
                    {
                        if !params[j].is_identifier() {
                            valid_params = false;
                        }
                        j = j + 1;
                    }
                }
            }
            let ghost gname: Seq<SpecError> = if has_name_at_1(s0) {
                seq![]
            } else {
                seq![crate::errors::spec_error_at(si0, crate::errors::msg_function_name())]
            };
            let ghost gpar: Seq<SpecError> = if !has_params {
                seq![crate::errors::spec_error_at(si0, crate::errors::msg_function_params())]
            } else if !all_params_idents(s0[pi as int]) {
                seq![
                    crate::errors::spec_error_at(
                        si0,
                        crate::errors::msg_function_params_idents(),
                    ),
                ]
            } else {
                seq![]
            };
            if !has_name {
                errors.push(Error::new("Functions require a name".to_owned(), si0));
            }
            if !has_params {
                errors.push(
                    Error::new(
                        "Functions are required to have at least one parameter".to_owned(),
                        si0,
                    ),
                );
            } else if !valid_params {
                errors.push(
                    Error::new("Function parameters have to be identifiers".to_owned(), si0),
                );
            }
            proof {
                assert(errors_appended(old(errors)@, errors@, gname + gpar));
            }
            normalize_type_slot(&mut v);
            let ghost n = normalize2(s0);
            proof {
                if !has_type_at_2(s0) && s0.len() >= 2 {
                    s0.insert_ensures(2, unknown_type_token());
                }
            }
            if has_params && valid_params {
                let ghost vpre = v@;
                let old_head = v.remove(0);
                v.insert(0, Token { kind: TokenKind::Identifier("let".to_owned()), si: si0 });
                proof {
                    vpre.remove_ensures(0);
                    vpre.remove(0).insert_ensures(
                        0,
                        Token { kind: v@[0].kind, si: si0 },
                    );
                    assert(forall|k: int| 1 <= k < v@.len() ==> #[trigger] v@[k] == n[k]);
                }
                let ghost v1 = v@;
                let params_tok = v.remove(3);
                proof {
                    v1.remove_ensures(3);
                    assert(params_tok == s0[pi as int]);
                }
                let mut body: Vec<Token> = Vec::new();
                body.push(
                    Token {
                        kind: TokenKind::Identifier("fun".to_owned()),
                        si: SourceInfo::new(0, 0, 0),
                    },
                );
                body.push(params_tok);
                let ghost mut gdone: Seq<SpecError> = seq![];
                proof {
                    assert((gname + gpar) + gdone =~= gname + gpar);
                }
                while v.len() > 3
                    invariant
                        t.kind is SExpr,
                        s0 == children_of(t),
                        n == normalize2(s0),
                        2 <= pi < s0.len(),
                        pi == after_prefix_index(s0),
                        has_params && valid_params,
                        all_params_idents(s0[pi as int]),
                        v@.len() >= 3,
                        v@.len() + body@.len() == n.len() + 1,
                        body@.len() >= 2,
                        v@[0].kind matches TokenKind::Identifier(id) && id@ == "let"@,
                        v@[0].si == si0,
                        si0 == s0[0].si,
                        v@[1] == n[1],
                        v@[2] == n[2],
                        forall|k: int|
                            3 <= k < v@.len() ==> #[trigger] v@[k] == n[k + body@.len() - 1],
                        body@[0].kind matches TokenKind::Identifier(f) && f@ == "fun"@,
                        body@[0].si == crate::source_info::synthetic_source_info(),
                        body@[1] == s0[pi as int],
                        forall|j: int|
                            2 <= j < body@.len() ==> vtree_token(
                                s0[pi + j - 1],
                                #[trigger] body@[j],
                            ),
                        errors_appended(old(errors)@, errors@, (gname + gpar) + gdone),
                        gdone + verrs_list(s0, pi + body@.len() - 1) == verrs_list(
                            s0,
                            pi + 1,
                        ),
                    decreases v@.len(),
                {
                    let ghost vpre2 = v@;
                    let ghost eprev = errors@;
                    let b = v.remove(3);
                    proof {
                        vpre2.remove_ensures(3);
                        assert(b == s0[pi + body@.len() - 1]);
                        let vv = t.kind->SExpr_0;
                        let ghost bi = pi + body@.len() - 1;
                        assert(decreases_to!(t => vv));
                        assert(decreases_to!(vv => vv@));
                        assert(decreases_to!(vv@ => vv@[bi]));
                        assert(vv@[bi] == b);
                        assert(decreases_to!(t => b));
                    }
                    let b2 = validate_token_owned(b, errors);
                    body.push(b2);
                    proof {
                        let gt = verrs_token(s0[pi + body@.len() - 2]);
                        lemma_errors_appended_trans(
                            old(errors)@,
                            eprev,
                            errors@,
                            (gname + gpar) + gdone,
                            gt,
                        );
                        assert(((gname + gpar) + gdone) + gt =~= (gname + gpar) + (gdone
                            + gt));
                        gdone = gdone + gt;
                        assert(gdone + verrs_list(s0, pi + body@.len() - 1) =~= verrs_list(
                            s0,
                            pi + 1,
                        ));
                    }
                }
                if body.len() < 3 {
                    errors.push(
                        Error::new(
                            "Lambda functions require at least one expression in them"
                                .to_owned(),
                            SourceInfo::new(0, 0, 0),
                        ),
                    );
                }
                v.push(Token { kind: TokenKind::SExpr(body), si: SourceInfo::new(0, 0, 0) });
                let res = Token { kind: TokenKind::SExpr(v), si };
                proof {
                    assert(vtree_token(t, res));
                    assert(errors_appended(old(errors)@, errors@, verrs_token(t)));
                }
                res
            } else {
                let res = Token { kind: TokenKind::SExpr(v), si };
                proof {
                    assert(vtree_token(t, res));
                    assert(errors_appended(old(errors)@, errors@, verrs_token(t)));
                }
                res
            }
        },
        _ => vstd::pervasive::unreached(),
    }
}


/// Validates a free-standing token list with no backing module, for
/// incremental/interactive use: every top-level token is validated in
/// place and all diagnostics come back as one flat sequence.
pub fn validate_code(code: &mut Vec<Token>) -> (errors: Vec<Error>)
    ensures
        final(code)@.len() == old(code)@.len(),
        forall|i: int| 0 <= i < old(code)@.len() ==> vtree_token(
            old(code)@[i],
            #[trigger] final(code)@[i],
        ),
        errors_appended(seq![], errors@, verrs_list(old(code)@, 0)),
{
    let ghost s0 = code@;
    let mut errors: Vec<Error> = Vec::new();
    let ghost mut gdone: Seq<SpecError> = seq![];
    let mut i: usize = 0;
    while i < code.len()
        invariant
            0 <= i,
            s0 == old(code)@,
            code@.len() == s0.len(),
            i > s0.len() ==> i == 0,
            forall|k: int| 0 <= k < i && k < s0.len() ==> vtree_token(s0[k], #[trigger] code@[k]),
            forall|k: int| i <= k < s0.len() ==> #[trigger] code@[k] == s0[k],
            errors_appended(seq![], errors@, gdone),
            gdone + verrs_list(s0, i as int) == verrs_list(s0, 0),
        decreases code@.len() - i,
    {
        let ghost vprev = code@;
        let ghost eprev = errors@;
        let child = code.remove(i);
        proof {
            assert(child == s0[i as int]);
        }
        let child2 = validate_token_owned(child, &mut errors);
        code.insert(i, child2);
        proof {
            vprev.remove(i as int).insert_ensures(i as int, child2);
            vprev.remove_ensures(i as int);
            lemma_errors_appended_trans(seq![], eprev, errors@, gdone, verrs_token(s0[i as int]));
            gdone = gdone + verrs_token(s0[i as int]);
            assert(gdone + verrs_list(s0, i + 1) =~= verrs_list(s0, 0));
        }
        i = i + 1;
    }
    proof {
        assert(gdone + seq![] =~= gdone);
    }
    errors
}

/// Whether a top-level form is a variable binding: a group headed `let`.
pub fn is_variable(token: &Token) -> (r: bool)
    ensures
        r == crate::token::spec_nth_child_named(*token, 0, "let"@),
{
    token.match_first_identifier("let")
}

/// Whether a top-level form is a procedure definition: a group headed
/// `procedure`.
pub fn is_procedure(token: &Token) -> (r: bool)
    ensures
        r == crate::token::spec_nth_child_named(*token, 0, "procedure"@),
{
    token.match_first_identifier("procedure")
}

/// Whether a form is a lambda literal: a group headed `fun`.
pub fn is_lambda(token: &Token) -> (r: bool)
    ensures
        r == crate::token::spec_nth_child_named(*token, 0, "fun"@),
{
    token.match_first_identifier("fun")
}


/// What one whole-module validation pass does to a module: every top-level
/// form validated and rewritten in place, each form that validated without
/// diagnostics registered in the symbol table matching its (possibly
/// rewritten) head, and the index of every non-group top-level token
/// recorded as a bare expression.
pub open spec fn module_validated(m0: Module, m1: Module) -> bool {
    &&& m1.id == m0.id
    &&& m1.name == m0.name
    &&& m1.code@.len() == m0.code@.len()
    &&& forall|i: int|
        0 <= i < m0.code@.len() ==> vtree_token(m0.code@[i], #[trigger] m1.code@[i])
    &&& m1.variables@ == registered_after(
        m0.variables@,
        "let"@,
        m0.code@,
        m1.code@,
        m0.code@.len() as int,
    )
    &&& m1.procedures@ == registered_after(
        m0.procedures@,
        "procedure"@,
        m0.code@,
        m1.code@,
        m0.code@.len() as int,
    )
    &&& m1.expressions@ == expressions_after(m0.expressions@, m0.code@, m0.code@.len() as int)
}

/// The diagnostics of validating the first `upto` modules, in order.
pub open spec fn modules_verrs(ms: Seq<Module>, upto: int) -> Seq<SpecError>
    decreases upto,
{
    if upto <= 0 {
        seq![]
    } else {
        modules_verrs(ms, upto - 1) + verrs_list(ms[upto - 1].code@, 0)
    }
}

/// Validates every top-level form of one module and populates its symbol
/// tables.
fn validate_module(module: &mut Module, errors: &mut Vec<Error>)
    ensures
        module_validated(*old(module), *final(module)),
        errors_appended(old(errors)@, final(errors)@, verrs_list(old(module).code@, 0)),
{
    let ghost s0 = module.code@;
    let ghost vars0 = module.variables@;
    let ghost procs0 = module.procedures@;
    let ghost exprs0 = module.expressions@;
    let ghost mut gdone: Seq<SpecError> = seq![];
    let mut index: usize = 0;
    while index < module.code.len()
        invariant
            0 <= index,
            s0 == old(module).code@,
            vars0 == old(module).variables@,
            procs0 == old(module).procedures@,
            exprs0 == old(module).expressions@,
            module.id == old(module).id,
            module.name == old(module).name,
            module.code@.len() == s0.len(),
            index > s0.len() ==> index == 0,
            forall|k: int| 0 <= k < index && k < s0.len() ==> vtree_token(
                s0[k],
                #[trigger] module.code@[k],
            ),
            forall|k: int| index <= k < s0.len() ==> #[trigger] module.code@[k] == s0[k],
            errors_appended(old(errors)@, errors@, gdone),
            gdone + verrs_list(s0, index as int) == verrs_list(s0, 0),
            module.variables@ == registered_after(vars0, "let"@, s0, module.code@, index as int),
            module.procedures@ == registered_after(
                procs0,
                "procedure"@,
                s0,
                module.code@,
                index as int,
            ),
            module.expressions@ == expressions_after(exprs0, s0, index as int),
        decreases module.code@.len() - index,
    {
        let ghost code_prev = module.code@;
        if module.code[index].is_sexpr() {
            let n_before = errors.len();
            let ghost eprev = errors@;
            let t = module.code.remove(index);
            proof {
                assert(t == s0[index as int]);
            }
            let t2 = validate_sexpr_owned(t, errors);
            module.code.insert(index, t2);
            proof {
                code_prev.remove(index as int).insert_ensures(index as int, t2);
                code_prev.remove_ensures(index as int);
                lemma_errors_appended_trans(
                    old(errors)@,
                    eprev,
                    errors@,
                    gdone,
                    verrs_token(s0[index as int]),
                );
                gdone = gdone + verrs_token(s0[index as int]);
                assert(gdone + verrs_list(s0, index + 1) =~= verrs_list(s0, 0));
                lemma_registered_after_congruent(
                    vars0,
                    "let"@,
                    s0,
                    code_prev,
                    module.code@,
                    index as int,
                );
                lemma_registered_after_congruent(
                    procs0,
                    "procedure"@,
                    s0,
                    code_prev,
                    module.code@,
                    index as int,
                );
            }
            if errors.len() == n_before {
                let reg_let = module.code[index].match_first_identifier("let");
                let mut reg_proc = false;
                if !reg_let {
                    reg_proc = module.code[index].match_first_identifier("procedure");
                }
                if reg_let {
                    proof {
                        lemma_validated_form_name(
                            s0[index as int],
                            module.code@[index as int],
                            "let"@,
                        );
                    }
                    let name = Module::binding_name(&module.code[index]);
                    module.variables.insert(name, index);
                    proof {
                        reveal_strlit("let");
                        reveal_strlit("procedure");
                        assert("let"@.len() == 3);
                        assert("procedure"@.len() == 9);
                        assert("let"@ != "procedure"@);
                        assert(module.variables@ == registered_after(
                            vars0,
                            "let"@,
                            s0,
                            module.code@,
                            index as int + 1,
                        ));
                        assert(module.procedures@ == registered_after(
                            procs0,
                            "procedure"@,
                            s0,
                            module.code@,
                            index as int + 1,
                        ));
                    }
                } else if reg_proc {
                    proof {
                        lemma_validated_form_name(
                            s0[index as int],
                            module.code@[index as int],
                            "procedure"@,
                        );
                    }
                    let name = Module::binding_name(&module.code[index]);
                    module.procedures.insert(name, index);
                    proof {
                        reveal_strlit("let");
                        reveal_strlit("procedure");
                        assert(module.variables@ == registered_after(
                            vars0,
                            "let"@,
                            s0,
                            module.code@,
                            index as int + 1,
                        ));
                        assert(module.procedures@ == registered_after(
                            procs0,
                            "procedure"@,
                            s0,
                            module.code@,
                            index as int + 1,
                        ));
                    }
                } else {
                    proof {
                        assert(module.variables@ == registered_after(
                            vars0,
                            "let"@,
                            s0,
                            module.code@,
                            index as int + 1,
                        ));
                        assert(module.procedures@ == registered_after(
                            procs0,
                            "procedure"@,
                            s0,
                            module.code@,
                            index as int + 1,
                        ));
                    }
                }
            } else {
                proof {
                    assert(module.variables@ == registered_after(
                        vars0,
                        "let"@,
                        s0,
                        module.code@,
                        index as int + 1,
                    ));
                    assert(module.procedures@ == registered_after(
                        procs0,
                        "procedure"@,
                        s0,
                        module.code@,
                        index as int + 1,
                    ));
                }
            }
        } else {
            module.expressions.push(index);
            proof {
                assert(verrs_token(s0[index as int]) =~= Seq::<SpecError>::empty());
                assert(gdone + verrs_list(s0, index + 1) =~= verrs_list(s0, 0));
                assert(module.variables@ == registered_after(
                    vars0,
                    "let"@,
                    s0,
                    module.code@,
                    index as int + 1,
                ));
                assert(module.procedures@ == registered_after(
                    procs0,
                    "procedure"@,
                    s0,
                    module.code@,
                    index as int + 1,
                ));
            }
        }
        index = index + 1;
    }
    proof {
        assert(gdone + seq![] =~= gdone);
    }
}

/// Validates every module of a program, returning all diagnostics in
/// module order.
pub fn validate(program: &mut Program) -> (errors: Vec<Error>)
    ensures
        final(program).spec_modules().len() == old(program).spec_modules().len(),
        forall|i: int|
            0 <= i < old(program).spec_modules().len() ==> module_validated(
                old(program).spec_modules()[i],
                #[trigger] final(program).spec_modules()[i],
            ),
        final(program).spec_lookup() == old(program).spec_lookup(),
        errors_appended(
            seq![],
            errors@,
            modules_verrs(
                old(program).spec_modules(),
                old(program).spec_modules().len() as int,
            ),
        ),
{
    let ghost ms0 = program.spec_modules();
    let mut errors: Vec<Error> = Vec::new();
    let modules = program.get_modules_mut();
    let ghost mut gdone: Seq<SpecError> = seq![];
    let mut i: usize = 0;
    while i < modules.len()
        invariant
            0 <= i <= ms0.len(),
            ms0 == old(program).spec_modules(),
            modules@.len() == ms0.len(),
            forall|k: int| 0 <= k < i ==> module_validated(ms0[k], #[trigger] modules@[k]),
            forall|k: int| i <= k < ms0.len() ==> #[trigger] modules@[k] == ms0[k],
            errors_appended(seq![], errors@, gdone),
            gdone == modules_verrs(ms0, i as int),
        decreases modules@.len() - i,
    {
        let ghost eprev = errors@;
        validate_module(&mut modules[i], &mut errors);
        proof {
            lemma_errors_appended_trans(
                seq![],
                eprev,
                errors@,
                gdone,
                verrs_list(ms0[i as int].code@, 0),
            );
            gdone = gdone + verrs_list(ms0[i as int].code@, 0);
        }
        i = i + 1;
    }
    errors
}

} // verus!
