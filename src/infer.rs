//! Bidirectional type inference.
//!
//! A context lists the type of each enclosing binder, outermost first. An
//! entry is stored as it was when pushed, valid in the context before it; it
//! is shifted when it is looked up, which is the same as shifting every entry
//! by one each time the context grows.
use vstd::prelude::*;

use crate::model::{self, alpha_eq, shift, subs, Arms, Tm};
use crate::reduce::{normalize, reduce, Env};
use crate::term::{arms_view, copy_bytes, copy_term, equals, find_entry, same_bytes, Arm, Term};

verus! {

/// Why a term has no type, as a mathematical value.
pub enum TyErr {
    TypeMismatch { expected: Tm, actual: Tm },
    NonFunctionApplication,
    IllFormedForall,
    UnknownConstructor { nam: Seq<u8> },
    PatternArityMismatch,
    NonSigmaProjection,
    NonSigmaConstruction,
    UnboxedDuplication,
    UnresolvedReference { nam: Seq<u8> },
    UnboundVariable { idx: u64 },
    NotAnInductive,
}

/// Why a term has no type.
#[derive(Debug, PartialEq, Eq)]
pub enum TypeError {
    /// An inferred type is not the expected one.
    TypeMismatch { expected: Term, actual: Term },
    /// The function position of an application is not of a function type.
    NonFunctionApplication,
    /// The domain or codomain of a function type is not a type.
    IllFormedForall,
    /// A constructor name that its inductive type does not declare.
    UnknownConstructor { nam: Vec<u8> },
    /// The branches of a match do not name the constructors, in order.
    PatternArityMismatch,
    /// A split of a value whose type is not a pair type.
    NonSigmaProjection,
    /// A pair built against a type that is not a pair type.
    NonSigmaConstruction,
    /// A duplication of a value whose type is not a box type.
    UnboxedDuplication,
    /// A reference to a global definition, which type inference does not expand.
    UnresolvedReference { nam: Vec<u8> },
    /// A variable with no binder in the context.
    UnboundVariable { idx: u64 },
    /// A constructor or a match whose inductive type is not an `Idt` node.
    NotAnInductive,
}

/// The model of an error.
pub open spec fn err_view(e: TypeError) -> TyErr {
    match e {
        TypeError::TypeMismatch { expected, actual } => TyErr::TypeMismatch {
            expected: expected@,
            actual: actual@,
        },
        TypeError::NonFunctionApplication => TyErr::NonFunctionApplication,
        TypeError::IllFormedForall => TyErr::IllFormedForall,
        TypeError::UnknownConstructor { nam } => TyErr::UnknownConstructor { nam: nam@ },
        TypeError::PatternArityMismatch => TyErr::PatternArityMismatch,
        TypeError::NonSigmaProjection => TyErr::NonSigmaProjection,
        TypeError::NonSigmaConstruction => TyErr::NonSigmaConstruction,
        TypeError::UnboxedDuplication => TyErr::UnboxedDuplication,
        TypeError::UnresolvedReference { nam } => TyErr::UnresolvedReference { nam: nam@ },
        TypeError::UnboundVariable { idx } => TyErr::UnboundVariable { idx },
        TypeError::NotAnInductive => TyErr::NotAnInductive,
    }
}

/// The model of a result of type inference.
pub open spec fn res_view(r: Result<Term, TypeError>) -> Result<Tm, TyErr> {
    match r {
        Ok(t) => Ok(t@),
        Err(e) => Err(err_view(e)),
    }
}

/// The model of a context.
pub open spec fn ctx_view(s: Seq<Term>) -> Seq<Tm> {
    s.map_values(|t: Term| t@)
}

/// The normal form type inference works with: references stay unexpanded.
pub open spec fn nf(t: Tm) -> Tm {
    normalize(t, Seq::empty())
}

/// The type a branch must have: one function argument for each argument of
/// the constructor type `ty`, and, at the end, the motive `ret` of the
/// constructor `val` applied to those arguments.
pub open spec fn case_type(ty: Tm, ret: Tm, val: Tm) -> Tm
    decreases ty,
{
    match ty {
        Tm::All { era, nam, typ, bod } => Tm::All {
            era,
            nam,
            typ,
            bod: Box::new(
                case_type(
                    *bod,
                    shift(ret, 1, 1),
                    Tm::App { era, fun: Box::new(shift(val, 1, 0)), arg: Box::new(Tm::Var { idx: 0 }) },
                ),
            ),
        },
        _ => subs(ret, val, 0),
    }
}

/// Two lists name the same entries in the same order.
pub open spec fn same_names(a: Arms, b: Arms) -> bool {
    &&& a.len() == b.len()
    &&& forall|i: int| 0 <= i < a.len() ==> #[trigger] a[i].0 == b[i].0
}

/// The first error of a list of checks.
pub open spec fn first_err(rs: Seq<Result<(), TyErr>>) -> Option<TyErr>
    decreases rs.len(),
{
    if rs.len() == 0 {
        None
    } else {
        match rs[0] {
            Err(e) => Some(e),
            Ok(_) => first_err(rs.drop_first()),
        }
    }
}

/// The result of a comparison of an inferred type with an expected one.
pub open spec fn expect(want: Tm, got: Tm) -> Result<(), TyErr> {
    if alpha_eq(got, want) {
        Ok(())
    } else {
        Err(TyErr::TypeMismatch { expected: want, actual: got })
    }
}

/// The check of branch `i` of a match on `idt` (an `Idt` with constructors
/// `ctr`), with motive `ret`.
pub open spec fn branch_check(idt: Tm, ctr: Arms, ret: Tm, cas: Arms, ctx: Seq<Tm>, i: int) -> Result<(), TyErr>
    decreases cas, 0int,
{
    if 0 <= i < cas.len() {
        let want = nf(case_type(subs(ctr[i].1, idt, 0), ret, Tm::Ctr { nam: ctr[i].0, idt: Box::new(idt) }));
        match type_of(cas[i].1, ctx) {
            Err(e) => Err(e),
            Ok(bt) => expect(want, bt),
        }
    } else {
        Ok(())
    }
}

/// The checks of all branches of a match, in order.
pub open spec fn branch_checks(idt: Tm, ctr: Arms, ret: Tm, cas: Arms, ctx: Seq<Tm>) -> Seq<
    Result<(), TyErr>,
>
    decreases cas, 1int,
{
    Seq::new(cas.len(), |i: int| branch_check(idt, ctr, ret, cas, ctx, i))
}

/// The type of `t` in context `ctx`, or why it has none.
pub open spec fn type_of(t: Tm, ctx: Seq<Tm>) -> Result<Tm, TyErr>
    decreases t, 2int,
{
    match t {
        Tm::Var { idx } => if idx < ctx.len() {
            Ok(shift(ctx[ctx.len() - 1 - idx], (idx + 1) as nat, 0))
        } else {
            Err(TyErr::UnboundVariable { idx })
        },
        Tm::Univ => Ok(Tm::Univ),
        Tm::Lam { era, nam, typ, bod } => {
            let dom = nf(*typ);
            match type_of(*bod, ctx.push(dom)) {
                Err(e) => Err(e),
                Ok(b) => Ok(Tm::All { era, nam, typ: Box::new(dom), bod: Box::new(b) }),
            }
        },
        Tm::All { typ, bod, .. } => match type_of(*typ, ctx) {
            Err(e) => Err(e),
            Ok(tt) => match type_of(*bod, ctx.push(nf(*typ))) {
                Err(e) => Err(e),
                Ok(bt) => if tt is Univ && bt is Univ {
                    Ok(Tm::Univ)
                } else {
                    Err(TyErr::IllFormedForall)
                },
            },
        },
        Tm::App { fun, arg, .. } => match type_of(*fun, ctx) {
            Err(e) => Err(e),
            Ok(ft) => match type_of(*arg, ctx) {
                Err(e) => Err(e),
                Ok(at) => match nf(ft) {
                    Tm::All { typ: dom, bod: cod, .. } => match expect(*dom, at) {
                        Err(e) => Err(e),
                        Ok(_) => Ok(nf(subs(*cod, nf(*arg), 0))),
                    },
                    _ => Err(TyErr::NonFunctionApplication),
                },
            },
        },
        Tm::Sig { fst, snd, .. } => match type_of(*fst, ctx) {
            Err(e) => Err(e),
            Ok(ft) => match type_of(*snd, ctx.push(nf(*fst))) {
                Err(e) => Err(e),
                Ok(st) => match expect(Tm::Univ, ft) {
                    Err(e) => Err(e),
                    Ok(_) => match expect(Tm::Univ, st) {
                        Err(e) => Err(e),
                        Ok(_) => Ok(Tm::Univ),
                    },
                },
            },
        },
        Tm::Mks { typ, fst, snd, .. } => match nf(*typ) {
            Tm::Sig { fst: a, snd: b, .. } => match type_of(*fst, ctx) {
                Err(e) => Err(e),
                Ok(ft) => match expect(*a, ft) {
                    Err(e) => Err(e),
                    Ok(_) => match type_of(*snd, ctx) {
                        Err(e) => Err(e),
                        Ok(st) => match expect(nf(subs(*b, nf(*fst), 0)), st) {
                            Err(e) => Err(e),
                            Ok(_) => Ok(nf(*typ)),
                        },
                    },
                },
            },
            _ => Err(TyErr::NonSigmaConstruction),
        },
        Tm::Spt { val, ret, bod, .. } => match type_of(*val, ctx) {
            Err(e) => Err(e),
            Ok(vt) => {
                let sig = nf(vt);
                match sig {
                    Tm::Sig { fst: a, snd: b, .. } => match type_of(*ret, ctx.push(sig)) {
                        Err(e) => Err(e),
                        Ok(rt) => match expect(Tm::Univ, rt) {
                            Err(e) => Err(e),
                            Ok(_) => match type_of(*bod, ctx.push(*a).push(*b)) {
                                Err(e) => Err(e),
                                Ok(bt) => {
                                    let pair = Tm::Mks {
                                        era: false,
                                        typ: Box::new(shift(sig, 2, 0)),
                                        fst: Box::new(Tm::Var { idx: 1 }),
                                        snd: Box::new(Tm::Var { idx: 0 }),
                                    };
                                    match expect(nf(subs(shift(*ret, 2, 1), pair, 0)), bt) {
                                        Err(e) => Err(e),
                                        Ok(_) => Ok(subs(*ret, *val, 0)),
                                    }
                                },
                            },
                        },
                    },
                    _ => Err(TyErr::NonSigmaProjection),
                }
            },
        },
        Tm::Idt { typ, .. } => Ok(nf(*typ)),
        Tm::Ctr { nam, idt } => match *idt {
            Tm::Idt { ctr, .. } => match model::find_arm(ctr, nam) {
                Some(k) => Ok(subs(ctr[k as int].1, *idt, 0)),
                None => Err(TyErr::UnknownConstructor { nam }),
            },
            _ => Err(TyErr::NotAnInductive),
        },
        Tm::Cas { idt, val, ret, cas } => match *idt {
            Tm::Idt { ctr, .. } => if !same_names(ctr, cas) {
                Err(TyErr::PatternArityMismatch)
            } else {
                match type_of(*val, ctx) {
                    Err(e) => Err(e),
                    Ok(_) => {
                        match first_err(branch_checks(*idt, ctr, *ret, cas, ctx)) {
                            Some(e) => Err(e),
                            None => Ok(subs(*ret, *val, 0)),
                        }
                    },
                }
            },
            _ => Err(TyErr::NotAnInductive),
        },
        Tm::Dup { val, bod, .. } => match type_of(*val, ctx) {
            Err(e) => Err(e),
            Ok(vt) => match nf(vt) {
                Tm::Bxt { typ: inner } => match type_of(*bod, ctx.push(*inner)) {
                    Err(e) => Err(e),
                    Ok(bt) => Ok(subs(bt, nf(*val), 0)),
                },
                _ => Err(TyErr::UnboxedDuplication),
            },
        },
        Tm::Bxv { val } => match type_of(*val, ctx) {
            Err(e) => Err(e),
            Ok(vt) => Ok(Tm::Bxt { typ: Box::new(vt) }),
        },
        Tm::Bxt { typ } => match type_of(*typ, ctx) {
            Err(e) => Err(e),
            Ok(tt) => match expect(Tm::Univ, tt) {
                Err(e) => Err(e),
                Ok(_) => Ok(Tm::Univ),
            },
        },
        Tm::Ref { nam } => Err(TyErr::UnresolvedReference { nam }),
    }
}

/// The model of the result of a check.
pub open spec fn unit_view(r: Result<(), TypeError>) -> Result<(), TyErr> {
    match r {
        Ok(_) => Ok(()),
        Err(e) => Err(err_view(e)),
    }
}

/// The normal form of `t`, with references left unexpanded.
fn normal(t: &Term) -> (r: Term)
    ensures
        r@ == nf(t@),
{
    let env = Env::new();
    reduce(t, &env)
}

/// Compares an inferred type with the expected one.
fn check(want: Term, got: Term) -> (r: Result<(), TypeError>)
    ensures
        unit_view(r) == expect(want@, got@),
{
    if equals(&got, &want) {
        Ok(())
    } else {
        Err(TypeError::TypeMismatch { expected: want, actual: got })
    }
}

/// Whether a term is the universe.
fn is_univ(t: &Term) -> (r: bool)
    ensures
        r == (t@ is Univ),
{
    proof {
        crate::term::lemma_view_variant(*t);
    }
    if let Term::Univ = t {
        true
    } else {
        false
    }
}

/// The type a branch must have to handle the constructor `val` whose type
/// `fun` refers to its inductive type `idt` by index 0.
pub fn make_case_fun(fun: &Term, idt: &Term, ret: &Term, val: Term) -> (r: Term)
    ensures
        r@ == case_type(subs(fun@, idt@, 0), ret@, val@),
{
    let ty = crate::term::subs(fun, idt, 0);
    case_fun(&ty, copy_term(ret), val)
}

/// `case_type`, executed.
fn case_fun(ty: &Term, ret: Term, val: Term) -> (r: Term)
    ensures
        r@ == case_type(ty@, ret@, val@),
    decreases ty,
{
    if let Term::All { era, nam, typ, bod } = ty {
        let ret1 = crate::term::shift(&ret, 1, 1);
        let zero = Term::Var { idx: 0 };
        assert(zero@ == Tm::Var { idx: 0 });
        let val1 = Term::App {
            era: *era,
            fun: Box::new(crate::term::shift(&val, 1, 0)),
            arg: Box::new(zero),
        };
        assert(val1@ == Tm::App {
            era: *era,
            fun: Box::new(shift(val@, 1, 0)),
            arg: Box::new(Tm::Var { idx: 0 }),
        });
        let b = case_fun(bod, ret1, val1);
        Term::All { era: *era, nam: copy_bytes(nam), typ: Box::new(copy_term(typ)), bod: Box::new(b) }
    } else {
        proof {
            crate::term::lemma_view_variant(*ty);
        }
        crate::term::subs(&ret, &val, 0)
    }
}

/// Pushing onto a context pushes the model of the entry.
proof fn lemma_ctx_push(s: Seq<Term>, t: Term)
    ensures
        ctx_view(s.push(t)) == ctx_view(s).push(t@),
{
    assert(ctx_view(s.push(t)) =~= ctx_view(s).push(t@));
}

/// The type of `term` in an empty context, or why it has none.
pub fn infer(term: &Term) -> (r: Result<Term, TypeError>)
    ensures
        res_view(r) == type_of(term@, Seq::empty()),
{
    let mut ctx: Vec<Term> = Vec::new();
    assert(ctx_view(ctx@) =~= Seq::<Tm>::empty());
    infer_in(term, &mut ctx)
}

/// The type of `term` in the context `ctx`, which is left as it was.
pub fn infer_in(term: &Term, ctx: &mut Vec<Term>) -> (r: Result<Term, TypeError>)
    ensures
        final(ctx)@ == old(ctx)@,
        res_view(r) == type_of(term@, ctx_view(old(ctx)@)),
    decreases term, 2int,
{
    let ghost c0 = ctx_view(ctx@);
    match term {
        Term::Var { idx } => {
            if *idx < ctx.len() as u64 {
                let i = ctx.len() - 1 - (*idx as usize);
                assert(c0[i as int] == ctx@[i as int]@);
                Ok(crate::term::shift(&ctx[i], *idx + 1, 0))
            } else {
                Err(TypeError::UnboundVariable { idx: *idx })
            }
        },
        Term::Univ => Ok(Term::Univ),
        Term::Lam { era, nam, typ, bod } => {
            let dom = normal(typ);
            let ghost dv = dom@;
            proof {
                lemma_ctx_push(ctx@, dom);
            }
            ctx.push(dom);
            let rb = infer_in(bod, ctx);
            let dom = ctx.pop().unwrap();
            assert(ctx@ =~= old(ctx)@);
            match rb {
                Err(e) => Err(e),
                Ok(b) => Ok(Term::All { era: *era, nam: copy_bytes(nam), typ: Box::new(dom), bod: Box::new(b) }),
            }
        },
        Term::Ref { nam } => Err(TypeError::UnresolvedReference { nam: copy_bytes(nam) }),
        Term::Idt { typ, .. } => Ok(normal(typ)),
        Term::Bxv { val } => match infer_in(val, ctx) {
            Err(e) => Err(e),
            Ok(vt) => Ok(Term::Bxt { typ: Box::new(vt) }),
        },
        Term::Bxt { typ } => match infer_in(typ, ctx) {
            Err(e) => Err(e),
            Ok(tt) => match check(Term::Univ, tt) {
                Err(e) => Err(e),
                Ok(_) => Ok(Term::Univ),
            },
        },
        _ => infer_node(term, ctx),
    }
}

/// `infer_in` for the nodes with more than one part.
#[verifier::rlimit(100)]
fn infer_node(term: &Term, ctx: &mut Vec<Term>) -> (r: Result<Term, TypeError>)
    requires
        term is All || term is App || term is Sig || term is Dup || term is Ctr || term is Mks
            || term is Spt || term is Cas,
    ensures
        final(ctx)@ == old(ctx)@,
        res_view(r) == type_of(term@, ctx_view(old(ctx)@)),
    decreases term, 1int,
{
    proof {
        crate::term::lemma_view_variant(*term);
    }
    match term {
        Term::All { typ, bod, .. } => {
            let tt = match infer_in(typ, ctx) {
                Err(e) => return Err(e),
                Ok(tt) => tt,
            };
            let dom = normal(typ);
            proof {
                lemma_ctx_push(ctx@, dom);
            }
            ctx.push(dom);
            let rb = infer_in(bod, ctx);
            ctx.pop();
            assert(ctx@ =~= old(ctx)@);
            match rb {
                Err(e) => Err(e),
                Ok(bt) => if is_univ(&tt) && is_univ(&bt) {
                    Ok(Term::Univ)
                } else {
                    Err(TypeError::IllFormedForall)
                },
            }
        },
        Term::App { fun, arg, .. } => {
            let ft = match infer_in(fun, ctx) {
                Err(e) => return Err(e),
                Ok(ft) => ft,
            };
            let at = match infer_in(arg, ctx) {
                Err(e) => return Err(e),
                Ok(at) => at,
            };
            let ftn = normal(&ft);
            if let Term::All { typ: dom, bod: cod, .. } = &ftn {
                match check(copy_term(dom), at) {
                    Err(e) => Err(e),
                    Ok(_) => {
                        let argn = normal(arg);
                        Ok(normal(&crate::term::subs(cod, &argn, 0)))
                    },
                }
            } else {
                proof {
                    crate::term::lemma_view_variant(ftn);
                }
                Err(TypeError::NonFunctionApplication)
            }
        },
        Term::Sig { fst, snd, .. } => {
            let ft = match infer_in(fst, ctx) {
                Err(e) => return Err(e),
                Ok(ft) => ft,
            };
            let dom = normal(fst);
            proof {
                lemma_ctx_push(ctx@, dom);
            }
            ctx.push(dom);
            let rs = infer_in(snd, ctx);
            ctx.pop();
            assert(ctx@ =~= old(ctx)@);
            let st = match rs {
                Err(e) => return Err(e),
                Ok(st) => st,
            };
            match check(Term::Univ, ft) {
                Err(e) => Err(e),
                Ok(_) => match check(Term::Univ, st) {
                    Err(e) => Err(e),
                    Ok(_) => Ok(Term::Univ),
                },
            }
        },
        Term::Dup { val, bod, .. } => {
            let vt = match infer_in(val, ctx) {
                Err(e) => return Err(e),
                Ok(vt) => vt,
            };
            let vtn = normal(&vt);
            if let Term::Bxt { typ: inner } = &vtn {
                let inner = copy_term(inner);
                proof {
                    lemma_ctx_push(ctx@, inner);
                }
                ctx.push(inner);
                let rb = infer_in(bod, ctx);
                ctx.pop();
                assert(ctx@ =~= old(ctx)@);
                match rb {
                    Err(e) => Err(e),
                    Ok(bt) => Ok(crate::term::subs(&bt, &normal(val), 0)),
                }
            } else {
                proof {
                    crate::term::lemma_view_variant(vtn);
                }
                Err(TypeError::UnboxedDuplication)
            }
        },
        Term::Ctr { nam, idt } => {
            if let Term::Idt { ctr, .. } = &**idt {
                match find_entry(ctr, nam) {
                    Some(k) => Ok(crate::term::subs(&ctr[k].1, idt, 0)),
                    None => Err(TypeError::UnknownConstructor { nam: copy_bytes(nam) }),
                }
            } else {
                proof {
                    crate::term::lemma_view_variant(**idt);
                }
                Err(TypeError::NotAnInductive)
            }
        },
        Term::Mks { .. } => infer_mks(term, ctx),
        Term::Spt { .. } => infer_spt(term, ctx),
        Term::Cas { .. } => infer_cas(term, ctx),
        _ => {
            assert(false);
            Err(TypeError::NotAnInductive)
        },
    }
}

/// `infer_in` for a pair.
fn infer_mks(term: &Term, ctx: &mut Vec<Term>) -> (r: Result<Term, TypeError>)
    requires
        term is Mks,
    ensures
        final(ctx)@ == old(ctx)@,
        res_view(r) == type_of(term@, ctx_view(old(ctx)@)),
    decreases term, 0int,
{
    let Term::Mks { typ, fst, snd, .. } = term else {
        return Err(TypeError::NotAnInductive);
    };
    let sig = normal(typ);
    if let Term::Sig { fst: a, snd: b, .. } = &sig {
        let ft = match infer_in(fst, ctx) {
            Err(e) => return Err(e),
            Ok(ft) => ft,
        };
        if let Err(e) = check(copy_term(a), ft) {
            return Err(e);
        }
        let st = match infer_in(snd, ctx) {
            Err(e) => return Err(e),
            Ok(st) => st,
        };
        let want = normal(&crate::term::subs(b, &normal(fst), 0));
        match check(want, st) {
            Err(e) => Err(e),
            Ok(_) => Ok(sig),
        }
    } else {
        proof {
            crate::term::lemma_view_variant(sig);
        }
        Err(TypeError::NonSigmaConstruction)
    }

}

/// `infer_in` for a split.
#[verifier::rlimit(100)]
fn infer_spt(term: &Term, ctx: &mut Vec<Term>) -> (r: Result<Term, TypeError>)
    requires
        term is Spt,
    ensures
        final(ctx)@ == old(ctx)@,
        res_view(r) == type_of(term@, ctx_view(old(ctx)@)),
    decreases term, 0int,
{
    let Term::Spt { val, ret, bod, .. } = term else {
        return Err(TypeError::NotAnInductive);
    };
    let vt = match infer_in(val, ctx) {
        Err(e) => return Err(e),
        Ok(vt) => vt,
    };
    let sig = normal(&vt);
    if let Term::Sig { fst: a, snd: b, .. } = &sig {
        let s1 = copy_term(&sig);
        proof {
            lemma_ctx_push(ctx@, s1);
        }
        ctx.push(s1);
        let rr = infer_in(ret, ctx);
        ctx.pop();
        assert(ctx@ =~= old(ctx)@);
        let rt = match rr {
            Err(e) => return Err(e),
            Ok(rt) => rt,
        };
        if let Err(e) = check(Term::Univ, rt) {
            return Err(e);
        }
        let a1 = copy_term(a);
        let b1 = copy_term(b);
        proof {
            lemma_ctx_push(ctx@, a1);
            lemma_ctx_push(ctx@.push(a1), b1);
        }
        ctx.push(a1);
        ctx.push(b1);
        let rb = infer_in(bod, ctx);
        ctx.pop();
        ctx.pop();
        assert(ctx@ =~= old(ctx)@);
        let bt = match rb {
            Err(e) => return Err(e),
            Ok(bt) => bt,
        };
        let one = Term::Var { idx: 1 };
        let zero = Term::Var { idx: 0 };
        assert(one@ == Tm::Var { idx: 1 } && zero@ == Tm::Var { idx: 0 });
        let pair = Term::Mks {
            era: false,
            typ: Box::new(crate::term::shift(&sig, 2, 0)),
            fst: Box::new(one),
            snd: Box::new(zero),
        };
        assert(pair@ == Tm::Mks {
            era: false,
            typ: Box::new(shift(sig@, 2, 0)),
            fst: Box::new(Tm::Var { idx: 1 }),
            snd: Box::new(Tm::Var { idx: 0 }),
        });
        let want = normal(&crate::term::subs(&crate::term::shift(ret, 2, 1), &pair, 0));
        match check(want, bt) {
            Err(e) => Err(e),
            Ok(_) => Ok(crate::term::subs(ret, val, 0)),
        }
    } else {
        proof {
            crate::term::lemma_view_variant(sig);
        }
        Err(TypeError::NonSigmaProjection)
    }

}

/// `infer_in` for a match.
#[verifier::rlimit(60)]
fn infer_cas(term: &Term, ctx: &mut Vec<Term>) -> (r: Result<Term, TypeError>)
    requires
        term is Cas,
    ensures
        final(ctx)@ == old(ctx)@,
        res_view(r) == type_of(term@, ctx_view(old(ctx)@)),
    decreases term, 0int,
{
    let Term::Cas { idt, val, ret, cas } = term else {
        return Err(TypeError::NotAnInductive);
    };
    if let Term::Idt { ctr, .. } = &**idt {
        if !same_entry_names(ctr, cas) {
            return Err(TypeError::PatternArityMismatch);
        }
        if let Err(e) = infer_in(val, ctx) {
            return Err(e);
        }
        match check_branches(idt, ctr, ret, cas, ctx) {
            Err(e) => Err(e),
            Ok(_) => Ok(crate::term::subs(ret, val, 0)),
        }
    } else {
        proof {
            crate::term::lemma_view_variant(**idt);
        }
        Err(TypeError::NotAnInductive)
    }

}

/// Whether two lists name the same entries in the same order.
fn same_entry_names(a: &Vec<Arm>, b: &Vec<Arm>) -> (r: bool)
    ensures
        r == same_names(arms_view(a@), arms_view(b@)),
{
    let ghost va = arms_view(a@);
    let ghost vb = arms_view(b@);
    if a.len() != b.len() {
        return false;
    }
    let mut i: usize = 0;
    while i < a.len()
        invariant
            i <= a.len(),
            a.len() == b.len(),
            va == arms_view(a@),
            vb == arms_view(b@),
            forall|j: int| #![trigger va[j]] 0 <= j < i ==> va[j].0 == vb[j].0,
        decreases a.len() - i,
    {
        if !same_bytes(&a[i].0, &b[i].0) {
            assert(va[i as int].0 != vb[i as int].0);
            return false;
        }
        assert(va[i as int].0 == vb[i as int].0);
        i += 1;
    }
    true
}

/// The first error from position `i` on.
proof fn lemma_first_err_step(rs: Seq<Result<(), TyErr>>, i: int)
    requires
        0 <= i < rs.len(),
    ensures
        first_err(rs.subrange(i, rs.len() as int)) == match rs[i] {
            Err(e) => Some(e),
            Ok(_) => first_err(rs.subrange(i + 1, rs.len() as int)),
        },
{
    assert(rs.subrange(i, rs.len() as int).drop_first() =~= rs.subrange(i + 1, rs.len() as int));
}

/// Checks every branch of a match against the type its constructor asks for,
/// in order, and stops at the first failure.
fn check_branches(idt: &Term, ctr: &Vec<Arm>, ret: &Term, cas: &Vec<Arm>, ctx: &mut Vec<Term>) -> (r:
    Result<(), TypeError>)
    requires
        same_names(arms_view(ctr@), arms_view(cas@)),
    ensures
        final(ctx)@ == old(ctx)@,
        unit_view(r) == match first_err(
            branch_checks(idt@, arms_view(ctr@), ret@, arms_view(cas@), ctx_view(old(ctx)@)),
        ) {
            Some(e) => Err(e),
            None => Ok(()),
        },
    decreases cas, 3int,
{
    let ghost c0 = ctx_view(ctx@);
    let ghost cv = arms_view(ctr@);
    let ghost sv = arms_view(cas@);
    let ghost rs = branch_checks(idt@, cv, ret@, sv, c0);
    assert(rs.subrange(0, rs.len() as int) =~= rs);
    let mut i: usize = 0;
    while i < cas.len()
        invariant
            i <= cas.len(),
            ctx@ == old(ctx)@,
            c0 == ctx_view(old(ctx)@),
            cv == arms_view(ctr@),
            sv == arms_view(cas@),
            same_names(cv, sv),
            rs == branch_checks(idt@, cv, ret@, sv, c0),
            first_err(rs) == first_err(rs.subrange(i as int, rs.len() as int)),
        decreases cas.len() - i,
    {
        proof {
            lemma_first_err_step(rs, i as int);
        }
        assert(sv[i as int].0 == cv[i as int].0);
        let cval = Term::Ctr { nam: copy_bytes(&ctr[i].0), idt: Box::new(copy_term(idt)) };
        let want = normal(&make_case_fun(&ctr[i].1, idt, ret, cval));
        let bt = match infer_in(&cas[i].1, ctx) {
            Err(e) => return Err(e),
            Ok(bt) => bt,
        };
        if let Err(e) = check(want, bt) {
            return Err(e);
        }
        i += 1;
    }
    assert(rs.subrange(i as int, rs.len() as int) =~= Seq::<Result<(), TyErr>>::empty());
    Ok(())
}

} // verus!
