//! The normalizer: one innermost-first reduction pass, and repeated passes
//! until nothing fires.
use vstd::prelude::*;

use crate::model::{self, shift, subs, Arms, Tm};
use crate::term::{
    arms_view, copy_bytes, copy_term, find_entry, opt_view, same_bytes, Arm, Term,
};

verus! {

/// The most passes `reduce` makes: as many as a `u64` counts.
pub const PASS_LIMIT: u64 = 0xffff_ffff_ffff_ffff;

/// The latest definition of `nam` in a table of global definitions.
pub open spec fn lookup(env: Arms, nam: Seq<u8>) -> Option<Tm>
    decreases env.len(),
{
    if env.len() == 0 {
        None
    } else if env.last().0 == nam {
        Some(env.last().1)
    } else {
        lookup(env.drop_last(), nam)
    }
}

/// `App(f, a)` once its parts are reduced: a lambda takes the argument; a
/// duplication floats out of the function position.
pub open spec fn app_rule(era: bool, f: Tm, a: Tm, ch: bool) -> (Tm, bool) {
    match f {
        Tm::Lam { bod, .. } => (subs(*bod, a, 0), true),
        Tm::Dup { nam, val, bod } => (
            Tm::Dup {
                nam,
                val,
                bod: Box::new(Tm::App { era, fun: bod, arg: Box::new(shift(a, 1, 0)) }),
            },
            true,
        ),
        _ => (Tm::App { era, fun: Box::new(f), arg: Box::new(a) }, ch),
    }
}

/// `Spt` once its parts are reduced: a pair hands its components to the body
/// (the second at index 0, the first at index 1); a duplication floats out.
pub open spec fn spt_rule(
    era: bool,
    v: Tm,
    r: Tm,
    fnm: Seq<u8>,
    snm: Seq<u8>,
    b: Tm,
    ch: bool,
) -> (Tm, bool) {
    match v {
        Tm::Mks { fst, snd, .. } => (subs(subs(b, shift(*snd, 1, 0), 0), *fst, 0), true),
        Tm::Dup { nam, val, bod } => (
            Tm::Dup {
                nam,
                val,
                bod: Box::new(
                    Tm::Spt {
                        era,
                        val: bod,
                        ret: Box::new(shift(r, 1, 1)),
                        fnm,
                        snm,
                        bod: Box::new(shift(b, 1, 2)),
                    },
                ),
            },
            true,
        ),
        _ => (
            Tm::Spt { era, val: Box::new(v), ret: Box::new(r), fnm, snm, bod: Box::new(b) },
            ch,
        ),
    }
}

/// `Dup` once its parts are reduced: a box is opened into the body; a nested
/// duplication floats out.
pub open spec fn dup_rule(nam: Seq<u8>, v: Tm, b: Tm, ch: bool) -> (Tm, bool) {
    match v {
        Tm::Bxv { val } => (subs(b, *val, 0), true),
        Tm::Dup { nam: n2, val: v2, bod: b2 } => (
            Tm::Dup {
                nam: n2,
                val: v2,
                bod: Box::new(Tm::Dup { nam, val: b2, bod: Box::new(shift(b, 1, 1)) }),
            },
            true,
        ),
        _ => (Tm::Dup { nam, val: Box::new(v), bod: Box::new(b) }, ch),
    }
}

/// A constructor applied through a spine of applications, with the constructor
/// replaced by the first branch of its name; `None` when the value is no such
/// spine or no branch has the name.
pub open spec fn swap_head(v: Tm, cs: Arms) -> Option<Tm>
    decreases v,
{
    match v {
        Tm::App { era, fun, arg } => match swap_head(*fun, cs) {
            Some(f) => Some(Tm::App { era, fun: Box::new(f), arg }),
            None => None,
        },
        Tm::Ctr { nam, .. } => match model::find_arm(cs, nam) {
            Some(k) => Some(cs[k as int].1),
            None => None,
        },
        _ => None,
    }
}

/// `Cas` once its parts are reduced: a constructor value selects its branch.
pub open spec fn cas_rule(i: Tm, v: Tm, r: Tm, cs: Arms, ch: bool) -> (Tm, bool) {
    match swap_head(v, cs) {
        Some(x) => (x, true),
        None => (
            Tm::Cas { idt: Box::new(i), val: Box::new(v), ret: Box::new(r), cas: cs },
            ch,
        ),
    }
}

/// One reduction pass: every part is reduced first, then the rule of the node
/// itself is tried once. The flag tells whether any rule fired.
pub open spec fn step(t: Tm, env: Arms) -> (Tm, bool)
    decreases t,
{
    match t {
        Tm::Var { .. } => (t, false),
        Tm::Univ => (t, false),
        Tm::Ref { nam } => match lookup(env, nam) {
            Some(v) => (v, true),
            None => (t, false),
        },
        Tm::All { era, nam, typ, bod } => {
            let (a, x) = step(*typ, env);
            let (b, y) = step(*bod, env);
            (Tm::All { era, nam, typ: Box::new(a), bod: Box::new(b) }, x || y)
        },
        Tm::Lam { era, nam, typ, bod } => {
            let (a, x) = step(*typ, env);
            let (b, y) = step(*bod, env);
            (Tm::Lam { era, nam, typ: Box::new(a), bod: Box::new(b) }, x || y)
        },
        Tm::App { era, fun, arg } => {
            let (f, x) = step(*fun, env);
            let (a, y) = step(*arg, env);
            app_rule(era, f, a, x || y)
        },
        Tm::Sig { era, nam, fst, snd } => {
            let (a, x) = step(*fst, env);
            let (b, y) = step(*snd, env);
            (Tm::Sig { era, nam, fst: Box::new(a), snd: Box::new(b) }, x || y)
        },
        Tm::Mks { era, typ, fst, snd } => {
            let (a, x) = step(*typ, env);
            let (b, y) = step(*fst, env);
            let (c, z) = step(*snd, env);
            (Tm::Mks { era, typ: Box::new(a), fst: Box::new(b), snd: Box::new(c) }, x || y || z)
        },
        Tm::Spt { era, val, ret, fnm, snm, bod } => {
            let (v, x) = step(*val, env);
            let (r, y) = step(*ret, env);
            let (b, z) = step(*bod, env);
            spt_rule(era, v, r, fnm, snm, b, x || y || z)
        },
        Tm::Idt { nam, typ, ctr } => {
            let (a, x) = step(*typ, env);
            (Tm::Idt { nam, typ: Box::new(a), ctr: step_arms(ctr, env) }, x || arms_flags(ctr, env).contains(true))
        },
        Tm::Ctr { nam, idt } => {
            let (a, x) = step(*idt, env);
            (Tm::Ctr { nam, idt: Box::new(a) }, x)
        },
        Tm::Cas { idt, val, ret, cas } => {
            let (i, w) = step(*idt, env);
            let (v, x) = step(*val, env);
            let (r, y) = step(*ret, env);
            cas_rule(i, v, r, step_arms(cas, env), w || x || y || arms_flags(cas, env).contains(true))
        },
        Tm::Dup { nam, val, bod } => {
            let (v, x) = step(*val, env);
            let (b, y) = step(*bod, env);
            dup_rule(nam, v, b, x || y)
        },
        Tm::Bxv { val } => {
            let (a, x) = step(*val, env);
            (Tm::Bxv { val: Box::new(a) }, x)
        },
        Tm::Bxt { typ } => {
            let (a, x) = step(*typ, env);
            (Tm::Bxt { typ: Box::new(a) }, x)
        },
    }
}

/// `step` on the term of every entry.
pub open spec fn step_arms(s: Arms, env: Arms) -> Arms
    decreases s,
{
    Seq::new(
        s.len(),
        |i: int|
            if 0 <= i < s.len() {
                (s[i].0, step(s[i].1, env).0)
            } else {
                s[i]
            },
    )
}

/// For every entry, whether `step` fires in its term.
pub open spec fn arms_flags(s: Arms, env: Arms) -> Seq<bool>
    decreases s,
{
    Seq::new(s.len(), |i: int| 0 <= i < s.len() && step(s[i].1, env).1)
}

/// Whether `step` fires in the term of some entry.
pub open spec fn arms_fire(s: Arms, env: Arms) -> bool {
    arms_flags(s, env).contains(true)
}

/// Up to `n` passes, stopping after the first pass in which nothing fires.
pub open spec fn reduce_passes(t: Tm, env: Arms, n: nat) -> Tm
    decreases n,
{
    if n == 0 {
        t
    } else {
        let (u, ch) = step(t, env);
        if ch {
            reduce_passes(u, env, (n - 1) as nat)
        } else {
            u
        }
    }
}

/// Each of the first `n` passes from `t` fires a rule: reduction has not
/// ended after `n` passes.
pub open spec fn busy(t: Tm, env: Arms, n: nat) -> bool
    decreases n,
{
    if n == 0 {
        true
    } else {
        let (u, ch) = step(t, env);
        ch && busy(u, env, (n - 1) as nat)
    }
}

/// When reduction ends within `n` passes, `reduce_passes` gives a normal form.
pub proof fn lemma_passes_normal(t: Tm, env: Arms, n: nat)
    requires
        !busy(t, env, n),
    ensures
        is_normal(reduce_passes(t, env, n), env),
    decreases n,
{
    if n > 0 {
        let (u, ch) = step(t, env);
        if ch {
            lemma_passes_normal(u, env, (n - 1) as nat);
        } else {
            crate::laws::lemma_quiet_step(t, env);
        }
    }
}

/// What `reduce` computes.
pub open spec fn normalize(t: Tm, env: Arms) -> Tm {
    reduce_passes(t, env, PASS_LIMIT as nat)
}

/// A term is in normal form when a pass fires no rule in it.
pub open spec fn is_normal(t: Tm, env: Arms) -> bool {
    !step(t, env).1
}

/// A table of global definitions, consulted when a reference is reduced.
/// A later definition of a name hides an earlier one.
pub struct Env {
    pub defs: Vec<Arm>,
}

impl View for Env {
    type V = Arms;

    open spec fn view(&self) -> Arms {
        arms_view(self.defs@)
    }
}

impl Env {
    /// The table without definitions.
    pub fn new() -> (r: Env)
        ensures
            r@ == Seq::<(Seq<u8>, Tm)>::empty(),
    {
        let r = Env { defs: Vec::new() };
        assert(r@ =~= Seq::<(Seq<u8>, Tm)>::empty());
        r
    }

    /// Adds a definition of `nam`.
    pub fn define(&mut self, nam: Vec<u8>, val: Term)
        ensures
            final(self)@ == old(self)@.push((nam@, val@)),
    {
        self.defs.push((nam, val));
        assert(self@ =~= old(self)@.push((nam@, val@)));
    }

    /// The latest definition of `nam`.
    pub fn lookup(&self, nam: &Vec<u8>) -> (r: Option<Term>)
        ensures
            opt_view(r) == lookup(self@, nam@),
    {
        let ghost v = self@;
        let mut i: usize = self.defs.len();
        assert(v.subrange(0, i as int) =~= v);
        while i > 0
            invariant
                i <= self.defs.len(),
                v == self@,
                lookup(v, nam@) == lookup(v.subrange(0, i as int), nam@),
            decreases i,
        {
            assert(v.subrange(0, i as int).drop_last() =~= v.subrange(0, i - 1));
            if same_bytes(&self.defs[i - 1].0, nam) {
                return Some(copy_term(&self.defs[i - 1].1));
            }
            i -= 1;
        }
        None
    }
}

/// `app_rule`, executed.
fn fire_app(era: bool, f: Term, a: Term, ch: bool) -> (r: (Term, bool))
    ensures
        (r.0@, r.1) == app_rule(era, f@, a@, ch),
{
    if let Term::Lam { bod, .. } = &f {
        return (crate::term::subs(bod, &a, 0), true);
    }
    if let Term::Dup { nam, val, bod } = &f {
        let sa = crate::term::shift(&a, 1, 0);
        let app = Term::App { era, fun: Box::new(copy_term(bod)), arg: Box::new(sa) };
        assert(app@ == Tm::App { era, fun: Box::new(bod@), arg: Box::new(shift(a@, 1, 0)) });
        return (
            Term::Dup { nam: copy_bytes(nam), val: Box::new(copy_term(val)), bod: Box::new(app) },
            true,
        );
    }
    (Term::App { era, fun: Box::new(f), arg: Box::new(a) }, ch)
}

/// `spt_rule`, executed.
fn fire_spt(era: bool, v: Term, r: Term, fnm: Vec<u8>, snm: Vec<u8>, b: Term, ch: bool) -> (res: (
    Term,
    bool,
))
    ensures
        (res.0@, res.1) == spt_rule(era, v@, r@, fnm@, snm@, b@, ch),
{
    if let Term::Mks { fst, snd, .. } = &v {
        let s1 = crate::term::shift(snd, 1, 0);
        let b1 = crate::term::subs(&b, &s1, 0);
        return (crate::term::subs(&b1, fst, 0), true);
    }
    if let Term::Dup { nam, val, bod } = &v {
        let r1 = crate::term::shift(&r, 1, 1);
        let b1 = crate::term::shift(&b, 1, 2);
        let split = Term::Spt {
            era,
            val: Box::new(copy_term(bod)),
            ret: Box::new(r1),
            fnm,
            snm,
            bod: Box::new(b1),
        };
        assert(split@ == Tm::Spt {
            era,
            val: Box::new(bod@),
            ret: Box::new(shift(r@, 1, 1)),
            fnm: fnm@,
            snm: snm@,
            bod: Box::new(shift(b@, 1, 2)),
        });
        return (
            Term::Dup { nam: copy_bytes(nam), val: Box::new(copy_term(val)), bod: Box::new(split) },
            true,
        );
    }
    (Term::Spt { era, val: Box::new(v), ret: Box::new(r), fnm, snm, bod: Box::new(b) }, ch)
}

/// `dup_rule`, executed.
fn fire_dup(nam: Vec<u8>, v: Term, b: Term, ch: bool) -> (r: (Term, bool))
    ensures
        (r.0@, r.1) == dup_rule(nam@, v@, b@, ch),
{
    if let Term::Bxv { val } = &v {
        return (crate::term::subs(&b, val, 0), true);
    }
    if let Term::Dup { nam: n2, val: v2, bod: b2 } = &v {
        let b1 = crate::term::shift(&b, 1, 1);
        let ghost nv = nam@;
        let inner = Term::Dup { nam, val: Box::new(copy_term(b2)), bod: Box::new(b1) };
        assert(inner@ == Tm::Dup { nam: nv, val: Box::new(b2@), bod: Box::new(shift(b@, 1, 1)) });
        return (
            Term::Dup { nam: copy_bytes(n2), val: Box::new(copy_term(v2)), bod: Box::new(inner) },
            true,
        );
    }
    (Term::Dup { nam, val: Box::new(v), bod: Box::new(b) }, ch)
}

/// The first branch named `nam`.
fn select_branch(nam: &Vec<u8>, cases: &Vec<Arm>) -> (r: Option<Term>)
    ensures
        opt_view(r) == match model::find_arm(arms_view(cases@), nam@) {
            Some(k) => Some(arms_view(cases@)[k as int].1),
            None => None,
        },
{
    match find_entry(cases, nam) {
        Some(k) => Some(copy_term(&cases[k].1)),
        None => None,
    }
}

/// The constructor spine `val` with its head replaced by the branch of the
/// constructor's name, if `val` is such a spine and the branch exists.
pub fn pattern_match(val: &Term, cases: &Vec<Arm>) -> (r: Option<Term>)
    ensures
        opt_view(r) == swap_head(val@, arms_view(cases@)),
    decreases val,
{
    if let Term::App { era, fun, arg } = val {
        match pattern_match(fun, cases) {
            Some(f) => Some(Term::App { era: *era, fun: Box::new(f), arg: Box::new(copy_term(arg)) }),
            None => None,
        }
    } else if let Term::Ctr { nam, .. } = val {
        select_branch(nam, cases)
    } else {
        proof {
            crate::term::lemma_view_variant(*val);
        }
        None
    }
}

/// One reduction pass over `term`; the flag tells whether any rule fired.
pub fn reduce_step(term: &Term, env: &Env) -> (r: (Term, bool))
    ensures
        (r.0@, r.1) == step(term@, env@),
    decreases term,
{
    match term {
        Term::Var { idx } => (Term::Var { idx: *idx }, false),
        Term::Univ => (Term::Univ, false),
        Term::Ref { nam } => match env.lookup(nam) {
            Some(v) => (v, true),
            None => (Term::Ref { nam: copy_bytes(nam) }, false),
        },
        Term::All { era, nam, typ, bod } => {
            let (a, x) = reduce_step(typ, env);
            let (b, y) = reduce_step(bod, env);
            (Term::All { era: *era, nam: copy_bytes(nam), typ: Box::new(a), bod: Box::new(b) }, x || y)
        },
        Term::Lam { era, nam, typ, bod } => {
            let (a, x) = reduce_step(typ, env);
            let (b, y) = reduce_step(bod, env);
            (Term::Lam { era: *era, nam: copy_bytes(nam), typ: Box::new(a), bod: Box::new(b) }, x || y)
        },
        Term::App { era, fun, arg } => {
            let (f, x) = reduce_step(fun, env);
            let (a, y) = reduce_step(arg, env);
            fire_app(*era, f, a, x || y)
        },
        Term::Sig { era, nam, fst, snd } => {
            let (a, x) = reduce_step(fst, env);
            let (b, y) = reduce_step(snd, env);
            (Term::Sig { era: *era, nam: copy_bytes(nam), fst: Box::new(a), snd: Box::new(b) }, x || y)
        },
        Term::Mks { era, typ, fst, snd } => {
            let (a, x) = reduce_step(typ, env);
            let (b, y) = reduce_step(fst, env);
            let (c, z) = reduce_step(snd, env);
            (
                Term::Mks { era: *era, typ: Box::new(a), fst: Box::new(b), snd: Box::new(c) },
                x || y || z,
            )
        },
        Term::Spt { era, val, ret, fnm, snm, bod } => {
            let (v, x) = reduce_step(val, env);
            let (r, y) = reduce_step(ret, env);
            let (b, z) = reduce_step(bod, env);
            fire_spt(*era, v, r, copy_bytes(fnm), copy_bytes(snm), b, x || y || z)
        },
        Term::Idt { nam, typ, ctr } => {
            let (a, x) = reduce_step(typ, env);
            let (cs, y) = reduce_arms(ctr, env);
            (Term::Idt { nam: copy_bytes(nam), typ: Box::new(a), ctr: cs }, x || y)
        },
        Term::Ctr { nam, idt } => {
            let (a, x) = reduce_step(idt, env);
            (Term::Ctr { nam: copy_bytes(nam), idt: Box::new(a) }, x)
        },
        Term::Cas { idt, val, ret, cas } => {
            let (i, w) = reduce_step(idt, env);
            let (v, x) = reduce_step(val, env);
            let (r, y) = reduce_step(ret, env);
            let (cs, z) = reduce_arms(cas, env);
            match pattern_match(&v, &cs) {
                Some(t) => (t, true),
                None => (
                    Term::Cas { idt: Box::new(i), val: Box::new(v), ret: Box::new(r), cas: cs },
                    w || x || y || z,
                ),
            }
        },
        Term::Dup { nam, val, bod } => {
            let (v, x) = reduce_step(val, env);
            let (b, y) = reduce_step(bod, env);
            fire_dup(copy_bytes(nam), v, b, x || y)
        },
        Term::Bxv { val } => {
            let (a, x) = reduce_step(val, env);
            (Term::Bxv { val: Box::new(a) }, x)
        },
        Term::Bxt { typ } => {
            let (a, x) = reduce_step(typ, env);
            (Term::Bxt { typ: Box::new(a) }, x)
        },
    }
}

/// One reduction pass over the term of every entry.
fn reduce_arms(s: &Vec<Arm>, env: &Env) -> (r: (Vec<Arm>, bool))
    ensures
        arms_view(r.0@) == step_arms(arms_view(s@), env@),
        r.1 == arms_fire(arms_view(s@), env@),
    decreases s,
{
    let ghost v = arms_view(s@);
    let mut out: Vec<Arm> = Vec::new();
    let mut fired = false;
    let mut i: usize = 0;
    while i < s.len()
        invariant
            i <= s.len(),
            v == arms_view(s@),
            out@.len() == i,
            forall|j: int|
                #![trigger out@[j]]
                0 <= j < i ==> out@[j].0@ == v[j].0 && out@[j].1@ == step(v[j].1, env@).0,
            fired == exists|j: int| 0 <= j < i && #[trigger] step(v[j].1, env@).1,
        decreases s.len() - i,
    {
        let nam = copy_bytes(&s[i].0);
        let (t, x) = reduce_step(&s[i].1, env);
        assert(v[i as int].1 == s@[i as int].1@);
        assert(x == step(v[i as int].1, env@).1);
        out.push((nam, t));
        fired = fired || x;
        i += 1;
    }
    assert(arms_view(out@) =~= step_arms(v, env@));
    assert(fired == arms_fire(v, env@)) by {
        if fired {
            let j = choose|j: int| 0 <= j < i && #[trigger] step(v[j].1, env@).1;
            assert(arms_flags(v, env@)[j]);
        } else {
            assert forall|j: int| 0 <= j < v.len() implies #[trigger] arms_flags(v, env@)[j] != true by {
                assert(!step(v[j].1, env@).1);
            }
        }
    }
    (out, fired)
}

/// Reduces `term` towards its normal form: passes of `reduce_step` until one
/// fires nothing, at most `PASS_LIMIT` of them. Unless every one of those
/// passes fired, the result is a normal form.
pub fn reduce(term: &Term, env: &Env) -> (r: Term)
    ensures
        r@ == normalize(term@, env@),
        !busy(term@, env@, PASS_LIMIT as nat) ==> is_normal(r@, env@),
{
    proof {
        if !busy(term@, env@, PASS_LIMIT as nat) {
            lemma_passes_normal(term@, env@, PASS_LIMIT as nat);
        }
    }
    let mut cur = copy_term(term);
    let mut n: u64 = PASS_LIMIT;
    while n > 0
        invariant
            reduce_passes(cur@, env@, n as nat) == normalize(term@, env@),
            !busy(term@, env@, PASS_LIMIT as nat) ==> is_normal(normalize(term@, env@), env@),
        decreases n,
    {
        let (next, fired) = reduce_step(&cur, env);
        if !fired {
            return next;
        }
        cur = next;
        n -= 1;
    }
    cur
}

} // verus!
