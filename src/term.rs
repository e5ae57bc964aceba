//! Terms as executable values, and the binder-aware transforms on them.
use vstd::prelude::*;

use crate::model::{self, Arms, Tm};

verus! {

/// An entry of a constructor list or of a branch list.
pub type Arm = (Vec<u8>, Term);

/// A term of the calculus. `Univ` is the type of types.
///
/// Binder structure and the meaning of each field are those of `model::Tm`.
#[derive(Debug, PartialEq, Eq)]
pub enum Term {
    Var { idx: u64 },
    All { era: bool, nam: Vec<u8>, typ: Box<Term>, bod: Box<Term> },
    Lam { era: bool, nam: Vec<u8>, typ: Box<Term>, bod: Box<Term> },
    App { era: bool, fun: Box<Term>, arg: Box<Term> },
    Univ,
    Sig { era: bool, nam: Vec<u8>, fst: Box<Term>, snd: Box<Term> },
    Mks { era: bool, typ: Box<Term>, fst: Box<Term>, snd: Box<Term> },
    Spt { era: bool, val: Box<Term>, ret: Box<Term>, fnm: Vec<u8>, snm: Vec<u8>, bod: Box<Term> },
    Idt { nam: Vec<u8>, typ: Box<Term>, ctr: Vec<Arm> },
    Ctr { nam: Vec<u8>, idt: Box<Term> },
    Cas { idt: Box<Term>, val: Box<Term>, ret: Box<Term>, cas: Vec<Arm> },
    Dup { nam: Vec<u8>, val: Box<Term>, bod: Box<Term> },
    Bxv { val: Box<Term> },
    Bxt { typ: Box<Term> },
    Ref { nam: Vec<u8> },
}

/// The model of a term.
pub open spec fn term_view(t: Term) -> Tm
    decreases t,
{
    match t {
        Term::Var { idx } => Tm::Var { idx },
        Term::All { era, nam, typ, bod } => Tm::All {
            era,
            nam: nam@,
            typ: Box::new(term_view(*typ)),
            bod: Box::new(term_view(*bod)),
        },
        Term::Lam { era, nam, typ, bod } => Tm::Lam {
            era,
            nam: nam@,
            typ: Box::new(term_view(*typ)),
            bod: Box::new(term_view(*bod)),
        },
        Term::App { era, fun, arg } => Tm::App {
            era,
            fun: Box::new(term_view(*fun)),
            arg: Box::new(term_view(*arg)),
        },
        Term::Univ => Tm::Univ,
        Term::Sig { era, nam, fst, snd } => Tm::Sig {
            era,
            nam: nam@,
            fst: Box::new(term_view(*fst)),
            snd: Box::new(term_view(*snd)),
        },
        Term::Mks { era, typ, fst, snd } => Tm::Mks {
            era,
            typ: Box::new(term_view(*typ)),
            fst: Box::new(term_view(*fst)),
            snd: Box::new(term_view(*snd)),
        },
        Term::Spt { era, val, ret, fnm, snm, bod } => Tm::Spt {
            era,
            val: Box::new(term_view(*val)),
            ret: Box::new(term_view(*ret)),
            fnm: fnm@,
            snm: snm@,
            bod: Box::new(term_view(*bod)),
        },
        Term::Idt { nam, typ, ctr } => Tm::Idt {
            nam: nam@,
            typ: Box::new(term_view(*typ)),
            ctr: arms_view(ctr@),
        },
        Term::Ctr { nam, idt } => Tm::Ctr { nam: nam@, idt: Box::new(term_view(*idt)) },
        Term::Cas { idt, val, ret, cas } => Tm::Cas {
            idt: Box::new(term_view(*idt)),
            val: Box::new(term_view(*val)),
            ret: Box::new(term_view(*ret)),
            cas: arms_view(cas@),
        },
        Term::Dup { nam, val, bod } => Tm::Dup {
            nam: nam@,
            val: Box::new(term_view(*val)),
            bod: Box::new(term_view(*bod)),
        },
        Term::Bxv { val } => Tm::Bxv { val: Box::new(term_view(*val)) },
        Term::Bxt { typ } => Tm::Bxt { typ: Box::new(term_view(*typ)) },
        Term::Ref { nam } => Tm::Ref { nam: nam@ },
    }
}

/// The model of a list of entries.
pub open spec fn arms_view(s: Seq<Arm>) -> Arms
    decreases s,
{
    Seq::new(
        s.len(),
        |i: int|
            if 0 <= i < s.len() {
                (s[i].0@, term_view(s[i].1))
            } else {
                (Seq::empty(), Tm::Univ)
            },
    )
}

impl View for Term {
    type V = Tm;

    open spec fn view(&self) -> Tm {
        term_view(*self)
    }
}

/// A copy of a byte string.
pub(crate) fn copy_bytes(b: &Vec<u8>) -> (r: Vec<u8>)
    ensures
        r@ == b@,
{
    let mut r: Vec<u8> = Vec::new();
    let mut i: usize = 0;
    while i < b.len()
        invariant
            i <= b.len(),
            r@ == b@.subrange(0, i as int),
        decreases b.len() - i,
    {
        r.push(b[i]);
        i += 1;
        assert(r@ =~= b@.subrange(0, i as int));
    }
    assert(r@ =~= b@);
    r
}

/// A deep copy of a term.
pub fn copy_term(t: &Term) -> (r: Term)
    ensures
        r@ == t@,
    decreases t,
{
    match t {
        Term::Var { idx } => Term::Var { idx: *idx },
        Term::All { era, nam, typ, bod } => Term::All {
            era: *era,
            nam: copy_bytes(nam),
            typ: Box::new(copy_term(typ)),
            bod: Box::new(copy_term(bod)),
        },
        Term::Lam { era, nam, typ, bod } => Term::Lam {
            era: *era,
            nam: copy_bytes(nam),
            typ: Box::new(copy_term(typ)),
            bod: Box::new(copy_term(bod)),
        },
        Term::App { era, fun, arg } => Term::App {
            era: *era,
            fun: Box::new(copy_term(fun)),
            arg: Box::new(copy_term(arg)),
        },
        Term::Univ => Term::Univ,
        Term::Sig { era, nam, fst, snd } => Term::Sig {
            era: *era,
            nam: copy_bytes(nam),
            fst: Box::new(copy_term(fst)),
            snd: Box::new(copy_term(snd)),
        },
        Term::Mks { era, typ, fst, snd } => Term::Mks {
            era: *era,
            typ: Box::new(copy_term(typ)),
            fst: Box::new(copy_term(fst)),
            snd: Box::new(copy_term(snd)),
        },
        Term::Spt { era, val, ret, fnm, snm, bod } => Term::Spt {
            era: *era,
            val: Box::new(copy_term(val)),
            ret: Box::new(copy_term(ret)),
            fnm: copy_bytes(fnm),
            snm: copy_bytes(snm),
            bod: Box::new(copy_term(bod)),
        },
        Term::Idt { nam, typ, ctr } => Term::Idt {
            nam: copy_bytes(nam),
            typ: Box::new(copy_term(typ)),
            ctr: copy_arms(ctr),
        },
        Term::Ctr { nam, idt } => Term::Ctr { nam: copy_bytes(nam), idt: Box::new(copy_term(idt)) },
        Term::Cas { idt, val, ret, cas } => Term::Cas {
            idt: Box::new(copy_term(idt)),
            val: Box::new(copy_term(val)),
            ret: Box::new(copy_term(ret)),
            cas: copy_arms(cas),
        },
        Term::Dup { nam, val, bod } => Term::Dup {
            nam: copy_bytes(nam),
            val: Box::new(copy_term(val)),
            bod: Box::new(copy_term(bod)),
        },
        Term::Bxv { val } => Term::Bxv { val: Box::new(copy_term(val)) },
        Term::Bxt { typ } => Term::Bxt { typ: Box::new(copy_term(typ)) },
        Term::Ref { nam } => Term::Ref { nam: copy_bytes(nam) },
    }
}

/// A deep copy of a list of entries.
pub(crate) fn copy_arms(s: &Vec<Arm>) -> (r: Vec<Arm>)
    ensures
        arms_view(r@) == arms_view(s@),
    decreases s,
{
    let mut r: Vec<Arm> = Vec::new();
    let mut i: usize = 0;
    while i < s.len()
        invariant
            i <= s.len(),
            r@.len() == i,
            forall|j: int| 0 <= j < i ==> (#[trigger] r@[j]).0@ == s@[j].0@ && r@[j].1@ == s@[j].1@,
        decreases s.len() - i,
    {
        let nam = copy_bytes(&s[i].0);
        let trm = copy_term(&s[i].1);
        r.push((nam, trm));
        i += 1;
    }
    assert(arms_view(r@) =~= arms_view(s@));
    r
}

/// The cutoff one binder further in.
fn next(c: u64) -> (r: u64)
    ensures
        r == model::up(c as nat),
{
    if c < u64::MAX {
        c + 1
    } else {
        c
    }
}

/// Adds `d` to every free variable (index at least `c`) of `term`; under each
/// binder the cutoff grows by one.
pub fn shift(term: &Term, d: u64, c: u64) -> (r: Term)
    ensures
        r@ == model::shift(term@, d as nat, c as nat),
    decreases term,
{
    match term {
        Term::Var { idx } => {
            if *idx < c {
                Term::Var { idx: *idx }
            } else if *idx <= u64::MAX - d {
                Term::Var { idx: *idx + d }
            } else {
                Term::Var { idx: u64::MAX }
            }
        },
        Term::All { era, nam, typ, bod } => Term::All {
            era: *era,
            nam: copy_bytes(nam),
            typ: Box::new(shift(typ, d, c)),
            bod: Box::new(shift(bod, d, next(c))),
        },
        Term::Lam { era, nam, typ, bod } => Term::Lam {
            era: *era,
            nam: copy_bytes(nam),
            typ: Box::new(shift(typ, d, c)),
            bod: Box::new(shift(bod, d, next(c))),
        },
        Term::App { era, fun, arg } => Term::App {
            era: *era,
            fun: Box::new(shift(fun, d, c)),
            arg: Box::new(shift(arg, d, c)),
        },
        Term::Univ => Term::Univ,
        Term::Sig { era, nam, fst, snd } => Term::Sig {
            era: *era,
            nam: copy_bytes(nam),
            fst: Box::new(shift(fst, d, c)),
            snd: Box::new(shift(snd, d, next(c))),
        },
        Term::Mks { era, typ, fst, snd } => Term::Mks {
            era: *era,
            typ: Box::new(shift(typ, d, c)),
            fst: Box::new(shift(fst, d, c)),
            snd: Box::new(shift(snd, d, c)),
        },
        Term::Spt { era, val, ret, fnm, snm, bod } => Term::Spt {
            era: *era,
            val: Box::new(shift(val, d, c)),
            ret: Box::new(shift(ret, d, next(c))),
            fnm: copy_bytes(fnm),
            snm: copy_bytes(snm),
            bod: Box::new(shift(bod, d, next(next(c)))),
        },
        Term::Idt { nam, typ, ctr } => Term::Idt {
            nam: copy_bytes(nam),
            typ: Box::new(shift(typ, d, c)),
            ctr: shift_arms(ctr, d, next(c)),
        },
        Term::Ctr { nam, idt } => Term::Ctr { nam: copy_bytes(nam), idt: Box::new(shift(idt, d, c)) },
        Term::Cas { idt, val, ret, cas } => Term::Cas {
            idt: Box::new(shift(idt, d, c)),
            val: Box::new(shift(val, d, c)),
            ret: Box::new(shift(ret, d, next(c))),
            cas: shift_arms(cas, d, c),
        },
        Term::Dup { nam, val, bod } => Term::Dup {
            nam: copy_bytes(nam),
            val: Box::new(shift(val, d, c)),
            bod: Box::new(shift(bod, d, next(c))),
        },
        Term::Bxv { val } => Term::Bxv { val: Box::new(shift(val, d, c)) },
        Term::Bxt { typ } => Term::Bxt { typ: Box::new(shift(typ, d, c)) },
        Term::Ref { nam } => Term::Ref { nam: copy_bytes(nam) },
    }
}

/// `shift` on the term of every entry.
fn shift_arms(s: &Vec<Arm>, d: u64, c: u64) -> (r: Vec<Arm>)
    ensures
        arms_view(r@) == model::shift_arms(arms_view(s@), d as nat, c as nat),
    decreases s,
{
    let mut r: Vec<Arm> = Vec::new();
    let mut i: usize = 0;
    while i < s.len()
        invariant
            i <= s.len(),
            r@.len() == i,
            forall|j: int|
                0 <= j < i ==> (#[trigger] r@[j]).0@ == s@[j].0@ && r@[j].1@ == model::shift(
                    s@[j].1@,
                    d as nat,
                    c as nat,
                ),
        decreases s.len() - i,
    {
        let nam = copy_bytes(&s[i].0);
        let trm = shift(&s[i].1, d, c);
        r.push((nam, trm));
        i += 1;
    }
    assert(arms_view(r@) =~= model::shift_arms(arms_view(s@), d as nat, c as nat));
    r
}

/// Replaces variable `dph` of `term` by `value`, shifted by the depth at which
/// it lands, and lowers the variables above `dph` by one.
pub fn subs(term: &Term, value: &Term, dph: u64) -> (r: Term)
    ensures
        r@ == model::subs(term@, value@, dph as nat),
    decreases term,
{
    match term {
        Term::Var { idx } => {
            if *idx == dph {
                shift(value, dph, 0)
            } else if *idx > dph {
                Term::Var { idx: *idx - 1 }
            } else {
                Term::Var { idx: *idx }
            }
        },
        Term::All { era, nam, typ, bod } => Term::All {
            era: *era,
            nam: copy_bytes(nam),
            typ: Box::new(subs(typ, value, dph)),
            bod: Box::new(subs(bod, value, next(dph))),
        },
        Term::Lam { era, nam, typ, bod } => Term::Lam {
            era: *era,
            nam: copy_bytes(nam),
            typ: Box::new(subs(typ, value, dph)),
            bod: Box::new(subs(bod, value, next(dph))),
        },
        Term::App { era, fun, arg } => Term::App {
            era: *era,
            fun: Box::new(subs(fun, value, dph)),
            arg: Box::new(subs(arg, value, dph)),
        },
        Term::Univ => Term::Univ,
        Term::Sig { era, nam, fst, snd } => Term::Sig {
            era: *era,
            nam: copy_bytes(nam),
            fst: Box::new(subs(fst, value, dph)),
            snd: Box::new(subs(snd, value, next(dph))),
        },
        Term::Mks { era, typ, fst, snd } => Term::Mks {
            era: *era,
            typ: Box::new(subs(typ, value, dph)),
            fst: Box::new(subs(fst, value, dph)),
            snd: Box::new(subs(snd, value, dph)),
        },
        Term::Spt { era, val, ret, fnm, snm, bod } => Term::Spt {
            era: *era,
            val: Box::new(subs(val, value, dph)),
            ret: Box::new(subs(ret, value, next(dph))),
            fnm: copy_bytes(fnm),
            snm: copy_bytes(snm),
            bod: Box::new(subs(bod, value, next(next(dph)))),
        },
        Term::Idt { nam, typ, ctr } => Term::Idt {
            nam: copy_bytes(nam),
            typ: Box::new(subs(typ, value, dph)),
            ctr: subs_arms(ctr, value, next(dph)),
        },
        Term::Ctr { nam, idt } => Term::Ctr {
            nam: copy_bytes(nam),
            idt: Box::new(subs(idt, value, dph)),
        },
        Term::Cas { idt, val, ret, cas } => Term::Cas {
            idt: Box::new(subs(idt, value, dph)),
            val: Box::new(subs(val, value, dph)),
            ret: Box::new(subs(ret, value, next(dph))),
            cas: subs_arms(cas, value, dph),
        },
        Term::Dup { nam, val, bod } => Term::Dup {
            nam: copy_bytes(nam),
            val: Box::new(subs(val, value, dph)),
            bod: Box::new(subs(bod, value, next(dph))),
        },
        Term::Bxv { val } => Term::Bxv { val: Box::new(subs(val, value, dph)) },
        Term::Bxt { typ } => Term::Bxt { typ: Box::new(subs(typ, value, dph)) },
        Term::Ref { nam } => Term::Ref { nam: copy_bytes(nam) },
    }
}

/// `subs` on the term of every entry.
fn subs_arms(s: &Vec<Arm>, value: &Term, dph: u64) -> (r: Vec<Arm>)
    ensures
        arms_view(r@) == model::subs_arms(arms_view(s@), value@, dph as nat),
    decreases s,
{
    let mut r: Vec<Arm> = Vec::new();
    let mut i: usize = 0;
    while i < s.len()
        invariant
            i <= s.len(),
            r@.len() == i,
            forall|j: int|
                0 <= j < i ==> (#[trigger] r@[j]).0@ == s@[j].0@ && r@[j].1@ == model::subs(
                    s@[j].1@,
                    value@,
                    dph as nat,
                ),
        decreases s.len() - i,
    {
        let nam = copy_bytes(&s[i].0);
        let trm = subs(&s[i].1, value, dph);
        r.push((nam, trm));
        i += 1;
    }
    assert(arms_view(r@) =~= model::subs_arms(arms_view(s@), value@, dph as nat));
    r
}

/// Byte-string equality.
pub(crate) fn same_bytes(a: &Vec<u8>, b: &Vec<u8>) -> (r: bool)
    ensures
        r == (a@ == b@),
{
    if a.len() != b.len() {
        return false;
    }
    let mut i: usize = 0;
    while i < a.len()
        invariant
            i <= a.len(),
            a.len() == b.len(),
            forall|j: int| 0 <= j < i ==> a@[j] == b@[j],
        decreases a.len() - i,
    {
        if a[i] != b[i] {
            return false;
        }
        i += 1;
    }
    assert(a@ =~= b@);
    true
}

/// Structural equality of two terms, ignoring binder names and erasure flags.
pub fn equals(a: &Term, b: &Term) -> (r: bool)
    ensures
        r == model::alpha_eq(a@, b@),
    decreases a,
{
    match (a, b) {
        (Term::Var { idx: i }, Term::Var { idx: j }) => *i == *j,
        (Term::All { typ: t1, bod: b1, .. }, Term::All { typ: t2, bod: b2, .. }) => equals(t1, t2)
            && equals(b1, b2),
        (Term::Lam { typ: t1, bod: b1, .. }, Term::Lam { typ: t2, bod: b2, .. }) => equals(t1, t2)
            && equals(b1, b2),
        (Term::App { fun: f1, arg: a1, .. }, Term::App { fun: f2, arg: a2, .. }) => equals(f1, f2)
            && equals(a1, a2),
        (Term::Univ, Term::Univ) => true,
        (Term::Sig { fst: f1, snd: s1, .. }, Term::Sig { fst: f2, snd: s2, .. }) => equals(f1, f2)
            && equals(s1, s2),
        (
            Term::Mks { typ: t1, fst: f1, snd: s1, .. },
            Term::Mks { typ: t2, fst: f2, snd: s2, .. },
        ) => equals(t1, t2) && equals(f1, f2) && equals(s1, s2),
        (
            Term::Spt { val: v1, ret: r1, bod: b1, .. },
            Term::Spt { val: v2, ret: r2, bod: b2, .. },
        ) => equals(v1, v2) && equals(r1, r2) && equals(b1, b2),
        (Term::Idt { typ: t1, ctr: c1, .. }, Term::Idt { typ: t2, ctr: c2, .. }) => equals(t1, t2)
            && equals_arms(c1, c2),
        (Term::Ctr { nam: n1, idt: i1 }, Term::Ctr { nam: n2, idt: i2 }) => same_bytes(n1, n2)
            && equals(i1, i2),
        (
            Term::Cas { idt: i1, val: v1, ret: r1, cas: c1 },
            Term::Cas { idt: i2, val: v2, ret: r2, cas: c2 },
        ) => equals(i1, i2) && equals(v1, v2) && equals(r1, r2) && equals_arms(c1, c2),
        (Term::Dup { val: v1, bod: b1, .. }, Term::Dup { val: v2, bod: b2, .. }) => equals(v1, v2)
            && equals(b1, b2),
        (Term::Bxv { val: v1 }, Term::Bxv { val: v2 }) => equals(v1, v2),
        (Term::Bxt { typ: t1 }, Term::Bxt { typ: t2 }) => equals(t1, t2),
        (Term::Ref { nam: n1 }, Term::Ref { nam: n2 }) => same_bytes(n1, n2),
        _ => false,
    }
}

/// Equality of two lists of entries: same length, same names, `equals` terms.
fn equals_arms(s1: &Vec<Arm>, s2: &Vec<Arm>) -> (r: bool)
    ensures
        r == model::arms_eq(arms_view(s1@), arms_view(s2@)),
    decreases s1,
{
    if s1.len() != s2.len() {
        return false;
    }
    let ghost v1 = arms_view(s1@);
    let ghost v2 = arms_view(s2@);
    let mut i: usize = 0;
    while i < s1.len()
        invariant
            i <= s1.len(),
            s1.len() == s2.len(),
            v1 == arms_view(s1@),
            v2 == arms_view(s2@),
            forall|j: int|
                #![trigger v1[j]]
                0 <= j < i ==> (v1[j].0 == v2[j].0 && model::alpha_eq(v1[j].1, v2[j].1)),
        decreases s1.len() - i,
    {
        if !same_bytes(&s1[i].0, &s2[i].0) {
            assert(v1[i as int].0 != v2[i as int].0);
            return false;
        }
        if !equals(&s1[i].1, &s2[i].1) {
            assert(v1[i as int].0 == v2[i as int].0 && !model::alpha_eq(v1[i as int].1, v2[i as int].1));
            return false;
        }
        assert(v1[i as int].0 == v2[i as int].0 && model::alpha_eq(v1[i as int].1, v2[i as int].1));
        i += 1;
    }
    true
}

/// The model of an optional term.
pub open spec fn opt_view(o: Option<Term>) -> Option<Tm> {
    match o {
        Some(t) => Some(t@),
        None => None,
    }
}

/// The position of the first entry of `s` named `nam`.
pub(crate) fn find_entry(s: &Vec<Arm>, nam: &Vec<u8>) -> (r: Option<usize>)
    ensures
        match r {
            Some(i) => i < s@.len() && model::find_arm(arms_view(s@), nam@) == Some(i as nat),
            None => model::find_arm(arms_view(s@), nam@) is None,
        },
{
    let ghost v = arms_view(s@);
    let mut i: usize = 0;
    while i < s.len()
        invariant
            i <= s.len(),
            v == arms_view(s@),
            forall|j: int| #![trigger v[j]] 0 <= j < i ==> v[j].0 != nam@,
        decreases s.len() - i,
    {
        if same_bytes(&s[i].0, nam) {
            proof {
                model::lemma_find_arm_at(v, nam@, i as nat);
            }
            return Some(i);
        }
        assert(v[i as int].0 != nam@);
        i += 1;
    }
    assert(forall|j: int| 0 <= j < v.len() ==> #[trigger] v[j].0 != nam@);
    None
}

/// The model of a term has the term's own variant.
pub(crate) proof fn lemma_view_variant(t: Term)
    ensures
        (t@ is App) == (t is App),
        (t@ is Ctr) == (t is Ctr),
        (t@ is Lam) == (t is Lam),
        (t@ is All) == (t is All),
        (t@ is Mks) == (t is Mks),
        (t@ is Sig) == (t is Sig),
        (t@ is Dup) == (t is Dup),
        (t@ is Bxv) == (t is Bxv),
        (t@ is Bxt) == (t is Bxt),
        (t@ is Idt) == (t is Idt),
        (t@ is Univ) == (t is Univ),
{
}

} // verus!
