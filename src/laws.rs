//! Laws of the kernel, proved over the model.
use vstd::prelude::*;

use crate::infer::type_of;
use crate::model::{bump, find_arm, lemma_find_arm_at, shift, shift_arms, subs, subs_arms, up, Arms, Tm};
use crate::reduce::{
    arms_flags, busy, is_normal, lemma_passes_normal, normalize, reduce_passes, step, step_arms,
    PASS_LIMIT,
};

verus! {

/// Shifting by zero leaves a term as it is.
pub proof fn lemma_shift_zero(t: Tm, c: nat)
    ensures
        shift(t, 0, c) == t,
    decreases t,
{
    match t {
        Tm::All { typ, bod, .. } => {
            lemma_shift_zero(*typ, c);
            lemma_shift_zero(*bod, up(c));
        },
        Tm::Lam { typ, bod, .. } => {
            lemma_shift_zero(*typ, c);
            lemma_shift_zero(*bod, up(c));
        },
        Tm::App { fun, arg, .. } => {
            lemma_shift_zero(*fun, c);
            lemma_shift_zero(*arg, c);
        },
        Tm::Sig { fst, snd, .. } => {
            lemma_shift_zero(*fst, c);
            lemma_shift_zero(*snd, up(c));
        },
        Tm::Mks { typ, fst, snd, .. } => {
            lemma_shift_zero(*typ, c);
            lemma_shift_zero(*fst, c);
            lemma_shift_zero(*snd, c);
        },
        Tm::Spt { val, ret, bod, .. } => {
            lemma_shift_zero(*val, c);
            lemma_shift_zero(*ret, up(c));
            lemma_shift_zero(*bod, up(up(c)));
        },
        Tm::Idt { typ, ctr, .. } => {
            lemma_shift_zero(*typ, c);
            lemma_shift_zero_arms(ctr, up(c));
        },
        Tm::Ctr { idt, .. } => {
            lemma_shift_zero(*idt, c);
        },
        Tm::Cas { idt, val, ret, cas } => {
            lemma_shift_zero(*idt, c);
            lemma_shift_zero(*val, c);
            lemma_shift_zero(*ret, up(c));
            lemma_shift_zero_arms(cas, c);
        },
        Tm::Dup { val, bod, .. } => {
            lemma_shift_zero(*val, c);
            lemma_shift_zero(*bod, up(c));
        },
        Tm::Bxv { val } => {
            lemma_shift_zero(*val, c);
        },
        Tm::Bxt { typ } => {
            lemma_shift_zero(*typ, c);
        },
        _ => {},
    }
}

/// Shifting the entries of a list by zero leaves the list as it is.
pub proof fn lemma_shift_zero_arms(s: Arms, c: nat)
    ensures
        shift_arms(s, 0, c) == s,
    decreases s,
{
    assert forall|i: int| 0 <= i < s.len() implies #[trigger] shift_arms(s, 0, c)[i] == s[i] by {
        lemma_shift_zero(s[i].1, c);
    }
    assert(shift_arms(s, 0, c) =~= s);
}

/// Two shifts at the same cutoff add up to one.
pub proof fn lemma_shift_shift(t: Tm, d1: nat, d2: nat, c: nat)
    ensures
        shift(shift(t, d1, c), d2, c) == shift(t, d1 + d2, c),
    decreases t,
{
    match t {
        Tm::Var { idx } => {
            if idx >= c {
                assert(bump(bump(idx, d1), d2) == bump(idx, d1 + d2));
            }
        },
        Tm::All { typ, bod, .. } => {
            lemma_shift_shift(*typ, d1, d2, c);
            lemma_shift_shift(*bod, d1, d2, up(c));
        },
        Tm::Lam { typ, bod, .. } => {
            lemma_shift_shift(*typ, d1, d2, c);
            lemma_shift_shift(*bod, d1, d2, up(c));
        },
        Tm::App { fun, arg, .. } => {
            lemma_shift_shift(*fun, d1, d2, c);
            lemma_shift_shift(*arg, d1, d2, c);
        },
        Tm::Sig { fst, snd, .. } => {
            lemma_shift_shift(*fst, d1, d2, c);
            lemma_shift_shift(*snd, d1, d2, up(c));
        },
        Tm::Mks { typ, fst, snd, .. } => {
            lemma_shift_shift(*typ, d1, d2, c);
            lemma_shift_shift(*fst, d1, d2, c);
            lemma_shift_shift(*snd, d1, d2, c);
        },
        Tm::Spt { val, ret, bod, .. } => {
            lemma_shift_shift(*val, d1, d2, c);
            lemma_shift_shift(*ret, d1, d2, up(c));
            lemma_shift_shift(*bod, d1, d2, up(up(c)));
        },
        Tm::Idt { typ, ctr, .. } => {
            lemma_shift_shift(*typ, d1, d2, c);
            lemma_shift_shift_arms(ctr, d1, d2, up(c));
        },
        Tm::Ctr { idt, .. } => {
            lemma_shift_shift(*idt, d1, d2, c);
        },
        Tm::Cas { idt, val, ret, cas } => {
            lemma_shift_shift(*idt, d1, d2, c);
            lemma_shift_shift(*val, d1, d2, c);
            lemma_shift_shift(*ret, d1, d2, up(c));
            lemma_shift_shift_arms(cas, d1, d2, c);
        },
        Tm::Dup { val, bod, .. } => {
            lemma_shift_shift(*val, d1, d2, c);
            lemma_shift_shift(*bod, d1, d2, up(c));
        },
        Tm::Bxv { val } => {
            lemma_shift_shift(*val, d1, d2, c);
        },
        Tm::Bxt { typ } => {
            lemma_shift_shift(*typ, d1, d2, c);
        },
        _ => {},
    }
}

/// Two shifts of the entries of a list at the same cutoff add up to one.
pub proof fn lemma_shift_shift_arms(s: Arms, d1: nat, d2: nat, c: nat)
    ensures
        shift_arms(shift_arms(s, d1, c), d2, c) == shift_arms(s, d1 + d2, c),
    decreases s,
{
    assert forall|i: int| 0 <= i < s.len() implies #[trigger] shift_arms(shift_arms(s, d1, c), d2, c)[i]
        == shift_arms(s, d1 + d2, c)[i] by {
        lemma_shift_shift(s[i].1, d1, d2, c);
    }
    assert(shift_arms(shift_arms(s, d1, c), d2, c) =~= shift_arms(s, d1 + d2, c));
}

/// A pass in which no rule fires gives back the term it was given.
pub proof fn lemma_quiet_step(t: Tm, env: Arms)
    requires
        !step(t, env).1,
    ensures
        step(t, env).0 == t,
    decreases t,
{
    match t {
        Tm::All { typ, bod, .. } => {
            lemma_quiet_step(*typ, env);
            lemma_quiet_step(*bod, env);
        },
        Tm::Lam { typ, bod, .. } => {
            lemma_quiet_step(*typ, env);
            lemma_quiet_step(*bod, env);
        },
        Tm::App { fun, arg, .. } => {
            lemma_quiet_step(*fun, env);
            lemma_quiet_step(*arg, env);
        },
        Tm::Sig { fst, snd, .. } => {
            lemma_quiet_step(*fst, env);
            lemma_quiet_step(*snd, env);
        },
        Tm::Mks { typ, fst, snd, .. } => {
            lemma_quiet_step(*typ, env);
            lemma_quiet_step(*fst, env);
            lemma_quiet_step(*snd, env);
        },
        Tm::Spt { val, ret, bod, .. } => {
            lemma_quiet_step(*val, env);
            lemma_quiet_step(*ret, env);
            lemma_quiet_step(*bod, env);
        },
        Tm::Idt { typ, ctr, .. } => {
            lemma_quiet_step(*typ, env);
            lemma_quiet_arms(ctr, env);
        },
        Tm::Ctr { idt, .. } => {
            lemma_quiet_step(*idt, env);
        },
        Tm::Cas { idt, val, ret, cas } => {
            lemma_quiet_step(*idt, env);
            lemma_quiet_step(*val, env);
            lemma_quiet_step(*ret, env);
            lemma_quiet_arms(cas, env);
        },
        Tm::Dup { val, bod, .. } => {
            lemma_quiet_step(*val, env);
            lemma_quiet_step(*bod, env);
        },
        Tm::Bxv { val } => {
            lemma_quiet_step(*val, env);
        },
        Tm::Bxt { typ } => {
            lemma_quiet_step(*typ, env);
        },
        _ => {},
    }
}

/// A pass that fires in no entry of a list gives back the list.
pub proof fn lemma_quiet_arms(s: Arms, env: Arms)
    requires
        !arms_flags(s, env).contains(true),
    ensures
        step_arms(s, env) == s,
    decreases s,
{
    assert forall|i: int| 0 <= i < s.len() implies #[trigger] step_arms(s, env)[i] == s[i] by {
        assert(arms_flags(s, env)[i] != true);
        lemma_quiet_step(s[i].1, env);
    }
    assert(step_arms(s, env) =~= s);
}

/// Reducing the result of `reduce` again changes nothing, for a term whose
/// reduction ends within the pass bound.
pub proof fn lemma_reduce_idempotent(t: Tm, env: Arms)
    requires
        !busy(t, env, PASS_LIMIT as nat),
    ensures
        normalize(normalize(t, env), env) == normalize(t, env),
{
    lemma_passes_normal(t, env, PASS_LIMIT as nat);
    let r = normalize(t, env);
    lemma_quiet_step(r, env);
    assert(PASS_LIMIT > 0);
}

/// The type of a constructor is the type its inductive type declares for it,
/// with the inductive type itself put for the self-reference.
pub proof fn lemma_constructor_type(nam: Seq<u8>, idt: Tm, ctx: Seq<Tm>, k: nat)
    requires
        idt is Idt,
        k < idt->ctr.len(),
        idt->ctr[k as int].0 == nam,
        forall|j: int| 0 <= j < k ==> idt->ctr[j].0 != nam,
    ensures
        type_of(Tm::Ctr { nam, idt: Box::new(idt) }, ctx) == Ok::<Tm, crate::infer::TyErr>(
            subs(idt->ctr[k as int].1, idt, 0),
        ),
{
    lemma_find_arm_at(idt->ctr, nam, k);
    assert(find_arm(idt->ctr, nam) == Some(k));
}

/// Every variable of `t` has a binder among `d` enclosing ones, and the
/// binders stay below level `u64::MAX`.
pub open spec fn closed_in(t: Tm, d: nat) -> bool
    decreases t,
{
    match t {
        Tm::Var { idx } => idx < d,
        Tm::All { typ, bod, .. } => d + 1 < u64::MAX && closed_in(*typ, d) && closed_in(*bod, d + 1),
        Tm::Lam { typ, bod, .. } => d + 1 < u64::MAX && closed_in(*typ, d) && closed_in(*bod, d + 1),
        Tm::App { fun, arg, .. } => closed_in(*fun, d) && closed_in(*arg, d),
        Tm::Univ => true,
        Tm::Sig { fst, snd, .. } => d + 1 < u64::MAX && closed_in(*fst, d) && closed_in(*snd, d + 1),
        Tm::Mks { typ, fst, snd, .. } => closed_in(*typ, d) && closed_in(*fst, d) && closed_in(
            *snd,
            d,
        ),
        Tm::Spt { val, ret, bod, .. } => d + 2 < u64::MAX && closed_in(*val, d) && closed_in(
            *ret,
            d + 1,
        ) && closed_in(*bod, d + 2),
        Tm::Idt { typ, ctr, .. } => d + 1 < u64::MAX && closed_in(*typ, d) && !closed_flags(
            ctr,
            d + 1,
        ).contains(false),
        Tm::Ctr { idt, .. } => closed_in(*idt, d),
        Tm::Cas { idt, val, ret, cas } => d + 1 < u64::MAX && closed_in(*idt, d) && closed_in(*val, d)
            && closed_in(*ret, d + 1) && !closed_flags(cas, d).contains(false),
        Tm::Dup { val, bod, .. } => d + 1 < u64::MAX && closed_in(*val, d) && closed_in(*bod, d + 1),
        Tm::Bxv { val } => closed_in(*val, d),
        Tm::Bxt { typ } => closed_in(*typ, d),
        Tm::Ref { .. } => true,
    }
}

/// For every entry, whether its term is `closed_in` `d` binders.
pub open spec fn closed_flags(s: Arms, d: nat) -> Seq<bool>
    decreases s,
{
    Seq::new(s.len(), |i: int| 0 <= i < s.len() && closed_in(s[i].1, d))
}

/// Substituting for a variable that a term does not have changes nothing.
pub proof fn lemma_subs_closed(t: Tm, v: Tm, d: nat)
    requires
        closed_in(t, d),
    ensures
        subs(t, v, d) == t,
    decreases t,
{
    match t {
        Tm::All { typ, bod, .. } => {
            lemma_subs_closed(*typ, v, d);
            lemma_subs_closed(*bod, v, d + 1);
        },
        Tm::Lam { typ, bod, .. } => {
            lemma_subs_closed(*typ, v, d);
            lemma_subs_closed(*bod, v, d + 1);
        },
        Tm::App { fun, arg, .. } => {
            lemma_subs_closed(*fun, v, d);
            lemma_subs_closed(*arg, v, d);
        },
        Tm::Sig { fst, snd, .. } => {
            lemma_subs_closed(*fst, v, d);
            lemma_subs_closed(*snd, v, d + 1);
        },
        Tm::Mks { typ, fst, snd, .. } => {
            lemma_subs_closed(*typ, v, d);
            lemma_subs_closed(*fst, v, d);
            lemma_subs_closed(*snd, v, d);
        },
        Tm::Spt { val, ret, bod, .. } => {
            lemma_subs_closed(*val, v, d);
            lemma_subs_closed(*ret, v, d + 1);
            lemma_subs_closed(*bod, v, d + 2);
        },
        Tm::Idt { typ, ctr, .. } => {
            lemma_subs_closed(*typ, v, d);
            assert forall|i: int| 0 <= i < ctr.len() implies #[trigger] subs_arms(ctr, v, d + 1)[i]
                == ctr[i] by {
                assert(closed_flags(ctr, d + 1)[i]);
                lemma_subs_closed(ctr[i].1, v, d + 1);
            }
            assert(subs_arms(ctr, v, d + 1) =~= ctr);
        },
        Tm::Ctr { idt, .. } => {
            lemma_subs_closed(*idt, v, d);
        },
        Tm::Cas { idt, val, ret, cas } => {
            lemma_subs_closed(*idt, v, d);
            lemma_subs_closed(*val, v, d);
            lemma_subs_closed(*ret, v, d + 1);
            assert forall|i: int| 0 <= i < cas.len() implies #[trigger] subs_arms(cas, v, d)[i]
                == cas[i] by {
                assert(closed_flags(cas, d)[i]);
                lemma_subs_closed(cas[i].1, v, d);
            }
            assert(subs_arms(cas, v, d) =~= cas);
        },
        Tm::Dup { val, bod, .. } => {
            lemma_subs_closed(*val, v, d);
            lemma_subs_closed(*bod, v, d + 1);
        },
        Tm::Bxv { val } => {
            lemma_subs_closed(*val, v, d);
        },
        Tm::Bxt { typ } => {
            lemma_subs_closed(*typ, v, d);
        },
        _ => {},
    }
}

/// A boxed value duplicated into both arguments of a pair builder: when the
/// builder is closed and normal and its head is neither a lambda nor a
/// duplication, and the value is normal, `reduce` gives the builder applied
/// to the value twice.
pub proof fn lemma_dup_shares(nam: Seq<u8>, v: Tm, pair: Tm, e1: bool, e2: bool, env: Arms)
    requires
        closed_in(pair, 0),
        is_normal(pair, env),
        is_normal(v, env),
        !(pair is Lam),
        !(pair is Dup),
    ensures
        normalize(
            Tm::Dup {
                nam,
                val: Box::new(Tm::Bxv { val: Box::new(v) }),
                bod: Box::new(
                    Tm::App {
                        era: e1,
                        fun: Box::new(
                            Tm::App {
                                era: e2,
                                fun: Box::new(pair),
                                arg: Box::new(Tm::Var { idx: 0 }),
                            },
                        ),
                        arg: Box::new(Tm::Var { idx: 0 }),
                    },
                ),
            },
            env,
        ) == (Tm::App {
            era: e1,
            fun: Box::new(Tm::App { era: e2, fun: Box::new(pair), arg: Box::new(v) }),
            arg: Box::new(v),
        }),
{
    let zero = Tm::Var { idx: 0 };
    let inner = Tm::App { era: e2, fun: Box::new(pair), arg: Box::new(zero) };
    let body = Tm::App { era: e1, fun: Box::new(inner), arg: Box::new(zero) };
    let bx = Tm::Bxv { val: Box::new(v) };
    let t = Tm::Dup { nam, val: Box::new(bx), bod: Box::new(body) };
    let done = Tm::App {
        era: e1,
        fun: Box::new(Tm::App { era: e2, fun: Box::new(pair), arg: Box::new(v) }),
        arg: Box::new(v),
    };
    lemma_quiet_step(pair, env);
    lemma_quiet_step(v, env);
    assert(step(pair, env) == (pair, false));
    assert(step(zero, env) == (zero, false));
    assert(step(v, env) == (v, false));
    assert(step(bx, env) == (bx, false));
    assert(crate::reduce::app_rule(e2, pair, zero, false) == (inner, false));
    assert(step(inner, env) == (inner, false));
    assert(step(body, env) == (body, false));
    lemma_subs_closed(pair, v, 0);
    lemma_shift_zero(v, 0);
    assert(subs(zero, v, 0) == v);
    assert(subs(inner, v, 0) == Tm::App { era: e2, fun: Box::new(pair), arg: Box::new(v) });
    assert(subs(body, v, 0) == done);
    assert(step(t, env) == (done, true));
    let inner2 = Tm::App { era: e2, fun: Box::new(pair), arg: Box::new(v) };
    assert(crate::reduce::app_rule(e2, pair, v, false) == (inner2, false));
    assert(step(inner2, env) == (inner2, false));
    assert(step(done, env) == (done, false));
    assert(reduce_passes(done, env, (PASS_LIMIT - 1) as nat) == done);
    assert(normalize(t, env) == reduce_passes(t, env, PASS_LIMIT as nat));
}

} // verus!
