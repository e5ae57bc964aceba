use dtkernel::infer::{infer, make_case_fun, TypeError};
use dtkernel::reduce::{pattern_match, reduce, reduce_step, Env};
use dtkernel::term::{equals, shift, subs, Term};

fn b(t: Term) -> Box<Term> {
    Box::new(t)
}

fn var(idx: u64) -> Term {
    Term::Var { idx }
}

fn app(fun: Term, arg: Term) -> Term {
    Term::App { era: false, fun: b(fun), arg: b(arg) }
}

fn lam(typ: Term, bod: Term) -> Term {
    Term::Lam { era: false, nam: b"x".to_vec(), typ: b(typ), bod: b(bod) }
}

fn all(typ: Term, bod: Term) -> Term {
    Term::All { era: false, nam: b"x".to_vec(), typ: b(typ), bod: b(bod) }
}

fn nat_idt() -> Term {
    Term::Idt {
        nam: b"Nat".to_vec(),
        typ: b(Term::Univ),
        ctr: vec![(b"zer".to_vec(), var(0)), (b"suc".to_vec(), all(var(0), var(1)))],
    }
}

fn boolean() -> Term {
    Term::Idt {
        nam: b"Bool".to_vec(),
        typ: b(Term::Univ),
        ctr: vec![(b"true".to_vec(), var(0)), (b"false".to_vec(), var(0))],
    }
}

fn ctr(nam: &str, idt: Term) -> Term {
    Term::Ctr { nam: nam.as_bytes().to_vec(), idt: b(idt) }
}

fn zer() -> Term {
    ctr("zer", nat_idt())
}

fn suc(n: Term) -> Term {
    app(ctr("suc", nat_idt()), n)
}

fn tru() -> Term {
    ctr("true", boolean())
}

fn fls() -> Term {
    ctr("false", boolean())
}

fn is_zero_case(n: Term) -> Term {
    Term::Cas {
        idt: b(nat_idt()),
        val: b(n),
        ret: b(boolean()),
        cas: vec![(b"zer".to_vec(), fls()), (b"suc".to_vec(), lam(nat_idt(), tru()))],
    }
}

fn sig_bool_nat() -> Term {
    Term::Sig { era: false, nam: b"p".to_vec(), fst: b(boolean()), snd: b(nat_idt()) }
}

fn no_env() -> Env {
    Env::new()
}

#[test]
fn peano_numeral_is_normal_and_typed() {
    let two = suc(suc(zer()));
    let (after, fired) = reduce_step(&two, &no_env());
    assert!(!fired);
    assert!(equals(&after, &two));
    assert!(equals(&reduce(&two, &no_env()), &two));
    let ty = infer(&two).unwrap();
    assert!(equals(&ty, &nat_idt()));
}

#[test]
fn match_on_successor_gives_true() {
    let t = is_zero_case(suc(zer()));
    let r = reduce(&t, &no_env());
    assert!(equals(&r, &tru()));
    let ty = infer(&t).unwrap();
    assert!(equals(&ty, &boolean()));
}

#[test]
fn match_on_zero_gives_false() {
    let r = reduce(&is_zero_case(zer()), &no_env());
    assert!(equals(&r, &fls()));
}

#[test]
fn split_returns_second_component() {
    let pair = Term::Mks { era: false, typ: b(sig_bool_nat()), fst: b(tru()), snd: b(zer()) };
    let t = Term::Spt {
        era: false,
        val: b(pair),
        ret: b(nat_idt()),
        fnm: b"f".to_vec(),
        snm: b"s".to_vec(),
        bod: b(var(0)),
    };
    assert!(equals(&reduce(&t, &no_env()), &zer()));
    let ty = infer(&t).unwrap();
    assert!(equals(&ty, &nat_idt()));
}

#[test]
fn split_returns_first_component() {
    let pair = Term::Mks { era: false, typ: b(sig_bool_nat()), fst: b(tru()), snd: b(zer()) };
    let t = Term::Spt {
        era: false,
        val: b(pair),
        ret: b(boolean()),
        fnm: b"f".to_vec(),
        snm: b"s".to_vec(),
        bod: b(var(1)),
    };
    assert!(equals(&reduce(&t, &no_env()), &tru()));
}

fn sig_bool_bool() -> Term {
    Term::Sig { era: false, nam: b"p".to_vec(), fst: b(boolean()), snd: b(boolean()) }
}

fn pair_fn() -> Term {
    lam(
        boolean(),
        lam(boolean(), Term::Mks { era: false, typ: b(sig_bool_bool()), fst: b(var(1)), snd: b(var(0)) }),
    )
}

#[test]
fn duplication_shares_a_boxed_value() {
    let t = Term::Dup {
        nam: b"x".to_vec(),
        val: b(Term::Bxv { val: b(tru()) }),
        bod: b(app(app(pair_fn(), var(0)), var(0))),
    };
    let want = Term::Mks { era: false, typ: b(sig_bool_bool()), fst: b(tru()), snd: b(tru()) };
    assert!(equals(&reduce(&t, &no_env()), &want));
}

#[test]
fn applying_a_non_function_fails() {
    let r = infer(&app(Term::Univ, tru()));
    assert_eq!(r, Err(TypeError::NonFunctionApplication));
}

#[test]
fn match_missing_a_branch_fails() {
    let t = Term::Cas {
        idt: b(nat_idt()),
        val: b(zer()),
        ret: b(boolean()),
        cas: vec![(b"zer".to_vec(), fls())],
    };
    assert_eq!(infer(&t), Err(TypeError::PatternArityMismatch));
}

#[test]
fn branches_out_of_order_fail() {
    let t = Term::Cas {
        idt: b(nat_idt()),
        val: b(zer()),
        ret: b(boolean()),
        cas: vec![(b"suc".to_vec(), lam(nat_idt(), tru())), (b"zer".to_vec(), fls())],
    };
    assert_eq!(infer(&t), Err(TypeError::PatternArityMismatch));
}

#[test]
fn constructor_type_resolves_self_reference() {
    let ty = infer(&ctr("suc", nat_idt())).unwrap();
    assert!(equals(&ty, &all(nat_idt(), nat_idt())));
    let ty = infer(&zer()).unwrap();
    assert!(equals(&ty, &nat_idt()));
}

#[test]
fn shift_by_zero_is_identity() {
    let t = lam(var(3), app(var(0), var(2)));
    for c in 0..4 {
        assert!(equals(&shift(&t, 0, c), &t));
    }
}

#[test]
fn shifts_compose() {
    let t = lam(var(3), app(var(0), var(2)));
    let twice = shift(&shift(&t, 1, 0), 2, 0);
    let once = shift(&t, 3, 0);
    assert!(equals(&twice, &once));
    assert!(equals(&once, &lam(var(6), app(var(0), var(5)))));
}

#[test]
fn shift_respects_cutoff() {
    let t = app(var(0), var(1));
    assert!(equals(&shift(&t, 5, 1), &app(var(0), var(6))));
}

#[test]
fn shift_saturates_at_largest_index() {
    let t = var(u64::MAX - 1);
    assert!(equals(&shift(&t, 5, 0), &var(u64::MAX)));
}

#[test]
fn substitution_replaces_and_closes_the_gap() {
    // (0 1 2)[v/1] with v = 0: index 1 becomes v, index 2 becomes 1.
    let t = app(app(var(0), var(1)), var(2));
    let r = subs(&t, &var(0), 1);
    assert!(equals(&r, &app(app(var(0), shift(&var(0), 1, 0)), var(1))));
    // Under a binder, the value is shifted by the depth.
    let t = lam(Term::Univ, var(1));
    let r = subs(&t, &var(4), 0);
    assert!(equals(&r, &lam(Term::Univ, var(5))));
}

#[test]
fn substitute_then_reduce_matches_reduce_then_substitute() {
    // t = (\y. y) 0, a closed value v = zer.
    let t = app(lam(nat_idt(), var(0)), var(0));
    let v = zer();
    let a = reduce(&subs(&t, &v, 0), &no_env());
    let c = subs(&reduce(&t, &no_env()), &v, 0);
    assert!(equals(&a, &c));
    assert!(equals(&a, &zer()));
}

#[test]
fn reduce_is_idempotent() {
    let t = is_zero_case(suc(suc(zer())));
    let once = reduce(&t, &no_env());
    let twice = reduce(&once, &no_env());
    assert_eq!(once, twice);
    let (_, fired) = reduce_step(&once, &no_env());
    assert!(!fired);
}

#[test]
fn type_is_preserved_by_reduction() {
    let t = is_zero_case(suc(zer()));
    let before = infer(&t).unwrap();
    let after = infer(&reduce(&t, &no_env())).unwrap();
    assert!(equals(&before, &after));
}

#[test]
fn equals_ignores_names_and_erasure() {
    let a = Term::Lam { era: true, nam: b"a".to_vec(), typ: b(Term::Univ), bod: b(var(0)) };
    let c = Term::Lam { era: false, nam: b"zz".to_vec(), typ: b(Term::Univ), bod: b(var(0)) };
    assert!(equals(&a, &c));
    assert!(!equals(&a, &lam(Term::Univ, var(1))));
    assert!(!equals(&zer(), &ctr("suc", nat_idt())));
}

#[test]
fn duplication_floats_out_of_application() {
    let f = Term::Dup {
        nam: b"x".to_vec(),
        val: b(var(0)),
        bod: b(lam(Term::Univ, var(0))),
    };
    let (r, fired) = reduce_step(&app(f, var(3)), &no_env());
    assert!(fired);
    let want = Term::Dup {
        nam: b"x".to_vec(),
        val: b(var(0)),
        bod: b(app(lam(Term::Univ, var(0)), var(4))),
    };
    assert!(equals(&r, &want));
}

#[test]
fn nested_duplications_commute() {
    let inner = Term::Dup { nam: b"y".to_vec(), val: b(var(0)), bod: b(var(0)) };
    let t = Term::Dup { nam: b"x".to_vec(), val: b(inner), bod: b(var(1)) };
    let (r, fired) = reduce_step(&t, &no_env());
    assert!(fired);
    let want = Term::Dup {
        nam: b"y".to_vec(),
        val: b(var(0)),
        bod: b(Term::Dup { nam: b"x".to_vec(), val: b(var(0)), bod: b(var(2)) }),
    };
    assert!(equals(&r, &want));
}

#[test]
fn references_unfold_from_the_environment() {
    let mut env = Env::new();
    env.define(b"two".to_vec(), suc(suc(zer())));
    let r = reduce(&Term::Ref { nam: b"two".to_vec() }, &env);
    assert!(equals(&r, &suc(suc(zer()))));
    let unknown = Term::Ref { nam: b"three".to_vec() };
    assert!(equals(&reduce(&unknown, &env), &unknown));
    env.define(b"two".to_vec(), zer());
    assert!(equals(&reduce(&Term::Ref { nam: b"two".to_vec() }, &env), &zer()));
    assert!(equals(&env.lookup(&b"two".to_vec()).unwrap(), &zer()));
}

#[test]
fn pattern_match_replaces_the_constructor_head() {
    let cases = vec![(b"zer".to_vec(), fls()), (b"suc".to_vec(), lam(nat_idt(), tru()))];
    let r = pattern_match(&suc(zer()), &cases).unwrap();
    assert!(equals(&r, &app(lam(nat_idt(), tru()), zer())));
    assert!(pattern_match(&var(0), &cases).is_none());
    assert!(pattern_match(&ctr("two", nat_idt()), &cases).is_none());
}

#[test]
fn case_function_type_for_successor() {
    let suc_ty = all(var(0), var(1));
    let r = make_case_fun(&suc_ty, &nat_idt(), &boolean(), ctr("suc", nat_idt()));
    assert!(equals(&r, &all(nat_idt(), boolean())));
}

#[test]
fn type_mismatch_reports_both_types() {
    let r = infer(&app(lam(nat_idt(), var(0)), tru()));
    match r {
        Err(TypeError::TypeMismatch { expected, actual }) => {
            assert!(equals(&expected, &nat_idt()));
            assert!(equals(&actual, &boolean()));
        },
        other => panic!("unexpected result {:?}", other),
    }
}

#[test]
fn forall_over_a_value_is_ill_formed() {
    assert_eq!(infer(&all(tru(), Term::Univ)), Err(TypeError::IllFormedForall));
    assert_eq!(infer(&all(Term::Univ, Term::Univ)), Ok(Term::Univ));
}

#[test]
fn unknown_constructor_is_reported() {
    assert_eq!(
        infer(&ctr("two", nat_idt())),
        Err(TypeError::UnknownConstructor { nam: b"two".to_vec() })
    );
}

#[test]
fn constructor_of_a_non_inductive_is_reported() {
    assert_eq!(infer(&ctr("zer", Term::Univ)), Err(TypeError::NotAnInductive));
}

#[test]
fn split_of_a_non_pair_is_reported() {
    let t = Term::Spt {
        era: false,
        val: b(tru()),
        ret: b(nat_idt()),
        fnm: b"f".to_vec(),
        snm: b"s".to_vec(),
        bod: b(var(0)),
    };
    assert_eq!(infer(&t), Err(TypeError::NonSigmaProjection));
}

#[test]
fn pair_against_a_non_pair_type_is_reported() {
    let t = Term::Mks { era: false, typ: b(nat_idt()), fst: b(tru()), snd: b(zer()) };
    assert_eq!(infer(&t), Err(TypeError::NonSigmaConstruction));
}

#[test]
fn pair_with_wrong_component_is_a_mismatch() {
    let t = Term::Mks { era: false, typ: b(sig_bool_nat()), fst: b(zer()), snd: b(zer()) };
    assert!(matches!(infer(&t), Err(TypeError::TypeMismatch { .. })));
    let ok = Term::Mks { era: false, typ: b(sig_bool_nat()), fst: b(tru()), snd: b(zer()) };
    assert!(equals(&infer(&ok).unwrap(), &sig_bool_nat()));
}

#[test]
fn duplication_of_an_unboxed_value_is_reported() {
    let t = Term::Dup { nam: b"x".to_vec(), val: b(tru()), bod: b(var(0)) };
    assert_eq!(infer(&t), Err(TypeError::UnboxedDuplication));
}

#[test]
fn boxes_are_typed() {
    let t = Term::Bxv { val: b(tru()) };
    assert!(equals(&infer(&t).unwrap(), &Term::Bxt { typ: b(boolean()) }));
    assert_eq!(infer(&Term::Bxt { typ: b(boolean()) }), Ok(Term::Univ));
    let d = Term::Dup { nam: b"x".to_vec(), val: b(t), bod: b(var(0)) };
    assert!(equals(&infer(&d).unwrap(), &boolean()));
}

#[test]
fn references_are_not_typed() {
    assert_eq!(
        infer(&Term::Ref { nam: b"two".to_vec() }),
        Err(TypeError::UnresolvedReference { nam: b"two".to_vec() })
    );
}

#[test]
fn free_variables_are_reported() {
    assert_eq!(infer(&var(0)), Err(TypeError::UnboundVariable { idx: 0 }));
}

#[test]
fn lambda_gets_a_function_type() {
    let ty = infer(&lam(nat_idt(), var(0))).unwrap();
    assert!(equals(&ty, &all(nat_idt(), nat_idt())));
    assert_eq!(infer(&Term::Univ), Ok(Term::Univ));
    assert!(equals(&infer(&nat_idt()).unwrap(), &Term::Univ));
}

#[test]
fn looping_definition_keeps_firing() {
    let mut env = Env::new();
    env.define(b"loop".to_vec(), Term::Ref { nam: b"loop".to_vec() });
    let t = Term::Ref { nam: b"loop".to_vec() };
    let (r, fired) = reduce_step(&t, &env);
    assert!(fired);
    assert!(equals(&r, &t));
}

#[test]
fn stuck_match_is_left_in_place() {
    let t = is_zero_case(var(0));
    let (r, fired) = reduce_step(&t, &no_env());
    assert!(!fired);
    assert!(equals(&r, &t));
}

#[test]
fn forall_over_functions_is_ill_formed() {
    let id = || lam(Term::Univ, var(0));
    assert_eq!(infer(&all(id(), id())), Err(TypeError::IllFormedForall));
}
