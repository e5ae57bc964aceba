//! The mathematical model of terms and the binder-aware transforms on it.
//!
//! Every executable operation of the kernel is specified against the functions
//! of this module. De Bruijn indices are `u64`; index arithmetic saturates at
//! `u64::MAX`: a shift that would carry an index past it leaves the index at
//! `u64::MAX` (so a variable of index `u64::MAX` is not moved), and a cutoff
//! stops growing there, which only a term nested about `u64::MAX` binders deep
//! reaches.
use vstd::prelude::*;

verus! {

/// A list of named entries: the constructors of an inductive type, or the
/// branches of a pattern match.
pub type Arms = Seq<(Seq<u8>, Tm)>;

/// A term of the calculus, as a mathematical value.
///
/// Binders: `All`, `Lam` and `Sig` bind one variable in their second part;
/// `Spt` binds one in its motive and two in its body (the second component is
/// index 0); `Idt` binds its own self-reference in the constructor types; `Cas`
/// binds the scrutinee in its motive; `Dup` binds the unboxed content in its body.
pub enum Tm {
    Var { idx: u64 },
    All { era: bool, nam: Seq<u8>, typ: Box<Tm>, bod: Box<Tm> },
    Lam { era: bool, nam: Seq<u8>, typ: Box<Tm>, bod: Box<Tm> },
    App { era: bool, fun: Box<Tm>, arg: Box<Tm> },
    Univ,
    Sig { era: bool, nam: Seq<u8>, fst: Box<Tm>, snd: Box<Tm> },
    Mks { era: bool, typ: Box<Tm>, fst: Box<Tm>, snd: Box<Tm> },
    Spt { era: bool, val: Box<Tm>, ret: Box<Tm>, fnm: Seq<u8>, snm: Seq<u8>, bod: Box<Tm> },
    Idt { nam: Seq<u8>, typ: Box<Tm>, ctr: Arms },
    Ctr { nam: Seq<u8>, idt: Box<Tm> },
    Cas { idt: Box<Tm>, val: Box<Tm>, ret: Box<Tm>, cas: Arms },
    Dup { nam: Seq<u8>, val: Box<Tm>, bod: Box<Tm> },
    Bxv { val: Box<Tm> },
    Bxt { typ: Box<Tm> },
    Ref { nam: Seq<u8> },
}

/// The cutoff (or depth) one binder further in.
pub open spec fn up(c: nat) -> nat {
    if c < u64::MAX {
        c + 1
    } else {
        c
    }
}

/// An index moved `d` binders outwards.
pub open spec fn bump(idx: u64, d: nat) -> u64 {
    if idx + d <= u64::MAX {
        (idx + d) as u64
    } else {
        u64::MAX
    }
}

/// Adds `d` to every variable of `t` that is free at cutoff `c`.
pub open spec fn shift(t: Tm, d: nat, c: nat) -> Tm
    decreases t,
{
    match t {
        Tm::Var { idx } => if idx < c {
            t
        } else {
            Tm::Var { idx: bump(idx, d) }
        },
        Tm::All { era, nam, typ, bod } => Tm::All {
            era,
            nam,
            typ: Box::new(shift(*typ, d, c)),
            bod: Box::new(shift(*bod, d, up(c))),
        },
        Tm::Lam { era, nam, typ, bod } => Tm::Lam {
            era,
            nam,
            typ: Box::new(shift(*typ, d, c)),
            bod: Box::new(shift(*bod, d, up(c))),
        },
        Tm::App { era, fun, arg } => Tm::App {
            era,
            fun: Box::new(shift(*fun, d, c)),
            arg: Box::new(shift(*arg, d, c)),
        },
        Tm::Univ => t,
        Tm::Sig { era, nam, fst, snd } => Tm::Sig {
            era,
            nam,
            fst: Box::new(shift(*fst, d, c)),
            snd: Box::new(shift(*snd, d, up(c))),
        },
        Tm::Mks { era, typ, fst, snd } => Tm::Mks {
            era,
            typ: Box::new(shift(*typ, d, c)),
            fst: Box::new(shift(*fst, d, c)),
            snd: Box::new(shift(*snd, d, c)),
        },
        Tm::Spt { era, val, ret, fnm, snm, bod } => Tm::Spt {
            era,
            val: Box::new(shift(*val, d, c)),
            ret: Box::new(shift(*ret, d, up(c))),
            fnm,
            snm,
            bod: Box::new(shift(*bod, d, up(up(c)))),
        },
        Tm::Idt { nam, typ, ctr } => Tm::Idt {
            nam,
            typ: Box::new(shift(*typ, d, c)),
            ctr: shift_arms(ctr, d, up(c)),
        },
        Tm::Ctr { nam, idt } => Tm::Ctr { nam, idt: Box::new(shift(*idt, d, c)) },
        Tm::Cas { idt, val, ret, cas } => Tm::Cas {
            idt: Box::new(shift(*idt, d, c)),
            val: Box::new(shift(*val, d, c)),
            ret: Box::new(shift(*ret, d, up(c))),
            cas: shift_arms(cas, d, c),
        },
        Tm::Dup { nam, val, bod } => Tm::Dup {
            nam,
            val: Box::new(shift(*val, d, c)),
            bod: Box::new(shift(*bod, d, up(c))),
        },
        Tm::Bxv { val } => Tm::Bxv { val: Box::new(shift(*val, d, c)) },
        Tm::Bxt { typ } => Tm::Bxt { typ: Box::new(shift(*typ, d, c)) },
        Tm::Ref { .. } => t,
    }
}

/// `shift` applied to the term of every entry, names kept.
pub open spec fn shift_arms(s: Arms, d: nat, c: nat) -> Arms
    decreases s,
{
    Seq::new(
        s.len(),
        |i: int|
            if 0 <= i < s.len() {
                (s[i].0, shift(s[i].1, d, c))
            } else {
                s[i]
            },
    )
}

/// Replaces variable `k` of `t` by `v` (moved in under the binders crossed) and
/// closes the gap: the variables above `k` go down by one.
pub open spec fn subs(t: Tm, v: Tm, k: nat) -> Tm
    decreases t,
{
    match t {
        Tm::Var { idx } => if idx == k {
            shift(v, k, 0)
        } else if idx > k {
            Tm::Var { idx: (idx - 1) as u64 }
        } else {
            t
        },
        Tm::All { era, nam, typ, bod } => Tm::All {
            era,
            nam,
            typ: Box::new(subs(*typ, v, k)),
            bod: Box::new(subs(*bod, v, up(k))),
        },
        Tm::Lam { era, nam, typ, bod } => Tm::Lam {
            era,
            nam,
            typ: Box::new(subs(*typ, v, k)),
            bod: Box::new(subs(*bod, v, up(k))),
        },
        Tm::App { era, fun, arg } => Tm::App {
            era,
            fun: Box::new(subs(*fun, v, k)),
            arg: Box::new(subs(*arg, v, k)),
        },
        Tm::Univ => t,
        Tm::Sig { era, nam, fst, snd } => Tm::Sig {
            era,
            nam,
            fst: Box::new(subs(*fst, v, k)),
            snd: Box::new(subs(*snd, v, up(k))),
        },
        Tm::Mks { era, typ, fst, snd } => Tm::Mks {
            era,
            typ: Box::new(subs(*typ, v, k)),
            fst: Box::new(subs(*fst, v, k)),
            snd: Box::new(subs(*snd, v, k)),
        },
        Tm::Spt { era, val, ret, fnm, snm, bod } => Tm::Spt {
            era,
            val: Box::new(subs(*val, v, k)),
            ret: Box::new(subs(*ret, v, up(k))),
            fnm,
            snm,
            bod: Box::new(subs(*bod, v, up(up(k)))),
        },
        Tm::Idt { nam, typ, ctr } => Tm::Idt {
            nam,
            typ: Box::new(subs(*typ, v, k)),
            ctr: subs_arms(ctr, v, up(k)),
        },
        Tm::Ctr { nam, idt } => Tm::Ctr { nam, idt: Box::new(subs(*idt, v, k)) },
        Tm::Cas { idt, val, ret, cas } => Tm::Cas {
            idt: Box::new(subs(*idt, v, k)),
            val: Box::new(subs(*val, v, k)),
            ret: Box::new(subs(*ret, v, up(k))),
            cas: subs_arms(cas, v, k),
        },
        Tm::Dup { nam, val, bod } => Tm::Dup {
            nam,
            val: Box::new(subs(*val, v, k)),
            bod: Box::new(subs(*bod, v, up(k))),
        },
        Tm::Bxv { val } => Tm::Bxv { val: Box::new(subs(*val, v, k)) },
        Tm::Bxt { typ } => Tm::Bxt { typ: Box::new(subs(*typ, v, k)) },
        Tm::Ref { .. } => t,
    }
}

/// `subs` applied to the term of every entry, names kept.
pub open spec fn subs_arms(s: Arms, v: Tm, k: nat) -> Arms
    decreases s,
{
    Seq::new(
        s.len(),
        |i: int|
            if 0 <= i < s.len() {
                (s[i].0, subs(s[i].1, v, k))
            } else {
                s[i]
            },
    )
}

/// Structural equality on the de Bruijn shape: binder names and erasure flags
/// are ignored; indices, and the names of constructors, branches and
/// references, are compared.
pub open spec fn alpha_eq(a: Tm, b: Tm) -> bool
    decreases a,
{
    match (a, b) {
        (Tm::Var { idx: i }, Tm::Var { idx: j }) => i == j,
        (Tm::All { typ: t1, bod: b1, .. }, Tm::All { typ: t2, bod: b2, .. }) => alpha_eq(*t1, *t2)
            && alpha_eq(*b1, *b2),
        (Tm::Lam { typ: t1, bod: b1, .. }, Tm::Lam { typ: t2, bod: b2, .. }) => alpha_eq(*t1, *t2)
            && alpha_eq(*b1, *b2),
        (Tm::App { fun: f1, arg: a1, .. }, Tm::App { fun: f2, arg: a2, .. }) => alpha_eq(*f1, *f2)
            && alpha_eq(*a1, *a2),
        (Tm::Univ, Tm::Univ) => true,
        (Tm::Sig { fst: f1, snd: s1, .. }, Tm::Sig { fst: f2, snd: s2, .. }) => alpha_eq(*f1, *f2)
            && alpha_eq(*s1, *s2),
        (
            Tm::Mks { typ: t1, fst: f1, snd: s1, .. },
            Tm::Mks { typ: t2, fst: f2, snd: s2, .. },
        ) => alpha_eq(*t1, *t2) && alpha_eq(*f1, *f2) && alpha_eq(*s1, *s2),
        (
            Tm::Spt { val: v1, ret: r1, bod: b1, .. },
            Tm::Spt { val: v2, ret: r2, bod: b2, .. },
        ) => alpha_eq(*v1, *v2) && alpha_eq(*r1, *r2) && alpha_eq(*b1, *b2),
        (Tm::Idt { typ: t1, ctr: c1, .. }, Tm::Idt { typ: t2, ctr: c2, .. }) => alpha_eq(*t1, *t2)
            && arms_eq(c1, c2),
        (Tm::Ctr { nam: n1, idt: i1 }, Tm::Ctr { nam: n2, idt: i2 }) => n1 == n2 && alpha_eq(
            *i1,
            *i2,
        ),
        (
            Tm::Cas { idt: i1, val: v1, ret: r1, cas: c1 },
            Tm::Cas { idt: i2, val: v2, ret: r2, cas: c2 },
        ) => alpha_eq(*i1, *i2) && alpha_eq(*v1, *v2) && alpha_eq(*r1, *r2) && arms_eq(c1, c2),
        (Tm::Dup { val: v1, bod: b1, .. }, Tm::Dup { val: v2, bod: b2, .. }) => alpha_eq(*v1, *v2)
            && alpha_eq(*b1, *b2),
        (Tm::Bxv { val: v1 }, Tm::Bxv { val: v2 }) => alpha_eq(*v1, *v2),
        (Tm::Bxt { typ: t1 }, Tm::Bxt { typ: t2 }) => alpha_eq(*t1, *t2),
        (Tm::Ref { nam: n1 }, Tm::Ref { nam: n2 }) => n1 == n2,
        _ => false,
    }
}

/// Two lists of entries are equal when they have the same length, the same
/// names in the same order, and `alpha_eq` terms.
pub open spec fn arms_eq(s1: Arms, s2: Arms) -> bool
    decreases s1,
{
    &&& s1.len() == s2.len()
    &&& forall|i: int|
        0 <= i < s1.len() ==> #[trigger] s1[i].0 == s2[i].0 && alpha_eq(s1[i].1, s2[i].1)
}

/// Every free variable of `t` is below `n`: the term is valid in a context
/// of `n` entries.
pub open spec fn scoped(t: Tm, n: nat) -> bool
    decreases t,
{
    match t {
        Tm::Var { idx } => idx < n,
        Tm::All { typ, bod, .. } => scoped(*typ, n) && scoped(*bod, n + 1),
        Tm::Lam { typ, bod, .. } => scoped(*typ, n) && scoped(*bod, n + 1),
        Tm::App { fun, arg, .. } => scoped(*fun, n) && scoped(*arg, n),
        Tm::Univ => true,
        Tm::Sig { fst, snd, .. } => scoped(*fst, n) && scoped(*snd, n + 1),
        Tm::Mks { typ, fst, snd, .. } => scoped(*typ, n) && scoped(*fst, n) && scoped(*snd, n),
        Tm::Spt { val, ret, bod, .. } => scoped(*val, n) && scoped(*ret, n + 1) && scoped(
            *bod,
            n + 2,
        ),
        Tm::Idt { typ, ctr, .. } => scoped(*typ, n) && !scope_flags(ctr, n + 1).contains(false),
        Tm::Ctr { idt, .. } => scoped(*idt, n),
        Tm::Cas { idt, val, ret, cas } => scoped(*idt, n) && scoped(*val, n) && scoped(*ret, n + 1)
            && !scope_flags(cas, n).contains(false),
        Tm::Dup { val, bod, .. } => scoped(*val, n) && scoped(*bod, n + 1),
        Tm::Bxv { val } => scoped(*val, n),
        Tm::Bxt { typ } => scoped(*typ, n),
        Tm::Ref { .. } => true,
    }
}

/// For every entry, whether its term is `scoped` in `n`.
pub open spec fn scope_flags(s: Arms, n: nat) -> Seq<bool>
    decreases s,
{
    Seq::new(s.len(), |i: int| 0 <= i < s.len() && scoped(s[i].1, n))
}

/// The index of the first entry named `nam`, if any.
pub open spec fn find_arm(s: Arms, nam: Seq<u8>) -> Option<nat> {
    if exists|i: int| 0 <= i < s.len() && s[i].0 == nam {
        Some(
            choose|i: nat|
                i < s.len() && s[i as int].0 == nam && forall|j: int|
                    0 <= j < i ==> s[j].0 != nam,
        )
    } else {
        None
    }
}

/// The first entry named `nam` sits at `i`.
pub proof fn lemma_find_arm_at(s: Arms, nam: Seq<u8>, i: nat)
    requires
        i < s.len(),
        s[i as int].0 == nam,
        forall|j: int| 0 <= j < i ==> s[j].0 != nam,
    ensures
        find_arm(s, nam) == Some(i),
{
    let k = choose|k: nat|
        k < s.len() && s[k as int].0 == nam && forall|j: int| 0 <= j < k ==> s[j].0 != nam;
    assert(k < s.len() && s[k as int].0 == nam && forall|j: int| 0 <= j < k ==> s[j].0 != nam);
    if k < i {
        assert(s[k as int].0 != nam);
    } else if k > i {
        assert(s[i as int].0 != nam);
    }
}

/// Shifting a term valid in `n` entries by `d` at a cutoff within the
/// context gives a term valid in `n + d` entries.
pub proof fn lemma_shift_scoped(t: Tm, n: nat, d: nat, c: nat)
    requires
        scoped(t, n),
        c <= n,
    ensures
        scoped(shift(t, d, c), n + d),
    decreases t,
{
    match t {
        Tm::All { typ, bod, .. } => {
            lemma_shift_scoped(*typ, n, d, c);
            lemma_shift_scoped(*bod, n + 1, d, up(c));
            assert(scoped(shift(*bod, d, up(c)), (n + d) + 1));
        },
        Tm::Lam { typ, bod, .. } => {
            lemma_shift_scoped(*typ, n, d, c);
            lemma_shift_scoped(*bod, n + 1, d, up(c));
        },
        Tm::App { fun, arg, .. } => {
            lemma_shift_scoped(*fun, n, d, c);
            lemma_shift_scoped(*arg, n, d, c);
        },
        Tm::Sig { fst, snd, .. } => {
            lemma_shift_scoped(*fst, n, d, c);
            lemma_shift_scoped(*snd, n + 1, d, up(c));
        },
        Tm::Mks { typ, fst, snd, .. } => {
            lemma_shift_scoped(*typ, n, d, c);
            lemma_shift_scoped(*fst, n, d, c);
            lemma_shift_scoped(*snd, n, d, c);
        },
        Tm::Spt { val, ret, bod, .. } => {
            lemma_shift_scoped(*val, n, d, c);
            lemma_shift_scoped(*ret, n + 1, d, up(c));
            lemma_shift_scoped(*bod, n + 2, d, up(up(c)));
        },
        Tm::Idt { typ, ctr, .. } => {
            lemma_shift_scoped(*typ, n, d, c);
            let sh = shift_arms(ctr, d, up(c));
            assert forall|i: int| 0 <= i < sh.len() implies #[trigger] scope_flags(sh, n + d + 1)[i] by {
                assert(scope_flags(ctr, n + 1)[i]);
                lemma_shift_scoped(ctr[i].1, n + 1, d, up(c));
            }
            assert(!scope_flags(sh, n + d + 1).contains(false));
        },
        Tm::Ctr { idt, .. } => {
            lemma_shift_scoped(*idt, n, d, c);
        },
        Tm::Cas { idt, val, ret, cas } => {
            lemma_shift_scoped(*idt, n, d, c);
            lemma_shift_scoped(*val, n, d, c);
            lemma_shift_scoped(*ret, n + 1, d, up(c));
            let sh = shift_arms(cas, d, c);
            assert forall|i: int| 0 <= i < sh.len() implies #[trigger] scope_flags(sh, n + d)[i] by {
                assert(scope_flags(cas, n)[i]);
                lemma_shift_scoped(cas[i].1, n, d, c);
            }
            assert(!scope_flags(sh, n + d).contains(false));
        },
        Tm::Dup { val, bod, .. } => {
            lemma_shift_scoped(*val, n, d, c);
            lemma_shift_scoped(*bod, n + 1, d, up(c));
        },
        Tm::Bxv { val } => {
            lemma_shift_scoped(*val, n, d, c);
        },
        Tm::Bxt { typ } => {
            lemma_shift_scoped(*typ, n, d, c);
        },
        _ => {},
    }
}

} // verus!
