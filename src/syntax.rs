//! Concrete syntax: a printer and a parser for terms.
//!
//! Every node starts with one glyph: `*` universe, `:f a` application,
//! `#x T b` lambda, `@x A B` function type, `&x A B` pair type, `,P a b` pair,
//! `^v x M y z b` split, `$x T |c C ... ;` inductive type, `.c I` constructor,
//! `~I v x M |c f ... ;` match, `=x v b` duplication, `+v` box, `!T` box type,
//! `'n` a reference to the global definition `n`, and, in the parser only,
//! `/x v b` a local definition. The lists of an inductive type and of a match
//! end with `;`. Anything else is a name: a bound variable, or else a
//! reference. The printer names the variable of each binder after its depth
//! (`a`, `b`, ...) and marks every reference, so a printed reference is never
//! taken for a variable.
//! The grammar is the spec function `read`; `parse_term` returns exactly what
//! it gives.
use vstd::prelude::*;

use crate::model::{lemma_shift_scoped, scope_flags, scoped, shift, up, Arms, Tm};
use crate::term::{arms_view, copy_term, opt_view, Arm, Term};

verus! {

/// A byte that separates tokens.
pub open spec fn is_white(b: u8) -> bool {
    b == 32 || b == 10
}

/// Skips spaces and newlines at the start of `code`.
pub fn skip_whites(code: &[u8]) -> (r: &[u8])
    ensures
        r@.len() <= code@.len(),
        r@ == code@.subrange(code@.len() - r@.len(), code@.len() as int),
        forall|i: int| 0 <= i < code@.len() - r@.len() ==> is_white(#[trigger] code@[i]),
        r@.len() > 0 ==> !is_white(r@[0]),
        suffix(r@, code@),
        r@ == skip(code@),
{
    let mut i: usize = 0;
    assert(code@.subrange(0, code@.len() as int) =~= code@);
    while i < code.len() && (code[i] == 32 || code[i] == 10)
        invariant
            i <= code@.len(),
            forall|j: int| 0 <= j < i ==> is_white(#[trigger] code@[j]),
            skip(code@) == skip(code@.subrange(i as int, code@.len() as int)),
        decreases code@.len() - i,
    {
        let ghost s = code@.subrange(i as int, code@.len() as int);
        assert(s.subrange(1, s.len() as int) =~= code@.subrange(i + 1, code@.len() as int));
        i += 1;
    }
    &code[i..code.len()]
}

/// Splits `code` at its first space or newline: the rest, then the name
/// before it.
pub fn parse_name(code: &[u8]) -> (r: (&[u8], &[u8]))
    ensures
        r.1@ == code@.subrange(0, r.1@.len() as int),
        r.0@ == code@.subrange(r.1@.len() as int, code@.len() as int),
        forall|i: int| 0 <= i < r.1@.len() ==> !is_white(#[trigger] code@[i]),
        r.0@.len() > 0 ==> is_white(r.0@[0]),
        suffix(r.0@, code@),
        r.1@.len() <= code@.len(),
        r.1@ + r.0@ == code@,
        r.1@ == name_in(code@),
        r.0@ == after_name(code@),
{
    let mut i: usize = 0;
    assert(code@.subrange(0, code@.len() as int) =~= code@);
    while i < code.len() && !(code[i] == 32 || code[i] == 10)
        invariant
            i <= code@.len(),
            forall|j: int| 0 <= j < i ==> !is_white(#[trigger] code@[j]),
            name_len(code@) == i + name_len(code@.subrange(i as int, code@.len() as int)),
        decreases code@.len() - i,
    {
        let ghost s = code@.subrange(i as int, code@.len() as int);
        assert(s.subrange(1, s.len() as int) =~= code@.subrange(i + 1, code@.len() as int));
        i += 1;
    }
    let r = (&code[i..code.len()], &code[0..i]);
    assert(r.1@ + r.0@ =~= code@);
    r
}

/// The letters of a positive number in bijective base 26, least significant
/// first: 1 is `a`, 26 is `z`, 27 is `aa`.
pub open spec fn letters(n: nat) -> Seq<u8>
    decreases n,
{
    if n == 0 {
        Seq::empty()
    } else {
        seq![(97 + (n - 1) % 26) as u8] + letters(((n - 1) / 26) as nat)
    }
}

/// The name of a binder level: `-` before a negative one, `?` for zero.
pub open spec fn name_of(level: int) -> Seq<u8> {
    let mag = if level < 0 {
        -level
    } else {
        level
    };
    (if level < 0 {
        seq![45u8]
    } else {
        Seq::empty()
    }) + (if mag == 0 {
        seq![63u8]
    } else {
        letters(mag as nat)
    })
}

/// `name_of`, executed.
fn level_name(level: i128) -> (r: Vec<u8>)
    requires
        level > i128::MIN,
    ensures
        r@ == name_of(level as int),
{
    let mut name: Vec<u8> = Vec::new();
    let mut n: i128 = level;
    if n < 0 {
        n = -n;
        name.push(45);
    }
    if n == 0 {
        name.push(63);
        return name;
    }
    let ghost pre = name@;
    let ghost m = n;
    assert(name@ + letters(n as nat) =~= pre + letters(m as nat));
    while n > 0
        invariant
            n >= 0,
            name@ + letters(n as nat) == pre + letters(m as nat),
        decreases n,
    {
        let ghost old_name = name@;
        let ghost old_n = n;
        n = n - 1;
        let digit = (97 + n % 26) as u8;
        name.push(digit);
        n = n / 26;
        assert(letters(old_n as nat) == seq![digit] + letters(n as nat));
        assert(name@ + letters(n as nat) =~= old_name + letters(old_n as nat));
    }
    assert(name@ =~= name@ + letters(0));
    name
}

/// The name the printer gives to the variable of the binder at `idx`
/// (1 is `a`, 27 is `aa`; 0 is `?`; a negative index is the name of its
/// magnitude after a `-`).
pub fn var_name(idx: i32) -> (r: Vec<u8>)
    ensures
        r@ == name_of(idx as int),
{
    level_name(idx as i128)
}

/// `a`, a space, then `b`.
pub open spec fn spaced(a: Seq<u8>, b: Seq<u8>) -> Seq<u8> {
    a + seq![32u8] + b
}

/// The text of `t`, printed `d` binders below level `base`.
pub open spec fn render(t: Tm, base: int, d: nat) -> Seq<u8>
    decreases t,
{
    let inner = name_of(base + up(d));
    match t {
        Tm::Var { idx } => name_of(base + d - idx),
        Tm::App { fun, arg, .. } => spaced(seq![58u8] + render(*fun, base, d), render(*arg, base, d)),
        Tm::Lam { typ, bod, .. } => spaced(
            spaced(seq![35u8] + inner, render(*typ, base, d)),
            render(*bod, base, up(d)),
        ),
        Tm::All { typ, bod, .. } => spaced(
            spaced(seq![64u8] + inner, render(*typ, base, d)),
            render(*bod, base, up(d)),
        ),
        Tm::Univ => seq![42u8],
        Tm::Sig { fst, snd, .. } => spaced(
            spaced(seq![38u8] + inner, render(*fst, base, d)),
            render(*snd, base, up(d)),
        ),
        Tm::Mks { typ, fst, snd, .. } => spaced(
            spaced(seq![44u8] + render(*typ, base, d), render(*fst, base, d)),
            render(*snd, base, d),
        ),
        Tm::Spt { val, ret, bod, .. } => spaced(
            spaced(
                spaced(
                    spaced(spaced(seq![94u8] + render(*val, base, d), inner), render(*ret, base, up(d))),
                    inner,
                ),
                name_of(base + up(up(d))),
            ),
            render(*bod, base, up(up(d))),
        ),
        Tm::Idt { typ, ctr, .. } => spaced(
            spaced(seq![36u8] + inner, render(*typ, base, d)) + render_arms(ctr, base, up(d)),
            seq![59u8],
        ),
        Tm::Ctr { nam, idt } => spaced(seq![46u8] + nam, render(*idt, base, d)),
        Tm::Cas { idt, val, ret, cas } => spaced(
            spaced(spaced(seq![126u8] + render(*idt, base, d), render(*val, base, d)), inner),
            render(*ret, base, up(d)),
        ) + render_arms(cas, base, d) + seq![32u8, 59u8],
        Tm::Dup { val, bod, .. } => spaced(
            spaced(seq![61u8] + inner, render(*val, base, d)),
            render(*bod, base, up(d)),
        ),
        Tm::Bxv { val } => seq![43u8] + render(*val, base, d),
        Tm::Bxt { typ } => seq![33u8] + render(*typ, base, d),
        Tm::Ref { nam } => seq![39u8] + nam,
    }
}

/// The text of a list of entries: ` |name term` for each.
pub open spec fn render_arms(s: Arms, base: int, d: nat) -> Seq<u8>
    decreases s,
{
    if s.len() == 0 {
        Seq::empty()
    } else {
        proof {
            vstd::seq::axiom_seq_subrange_decreases(s, 0, s.len() - 1);
        }
        render_arms(s.subrange(0, s.len() - 1), base, d) + spaced(
            seq![32u8, 124u8] + s[s.len() - 1].0,
            render(s[s.len() - 1].1, base, d),
        )
    }
}

/// Appends `b` to `code`.
fn put(code: &mut Vec<u8>, b: &[u8])
    ensures
        final(code)@ == old(code)@ + b@,
{
    let mut i: usize = 0;
    while i < b.len()
        invariant
            i <= b@.len(),
            code@ == old(code)@ + b@.subrange(0, i as int),
        decreases b@.len() - i,
    {
        code.push(b[i]);
        i += 1;
        assert(code@ =~= old(code)@ + b@.subrange(0, i as int));
    }
    assert(b@.subrange(0, i as int) =~= b@);
}

/// Appends the name of a binder level.
fn put_name(code: &mut Vec<u8>, level: i128)
    requires
        level > i128::MIN,
    ensures
        final(code)@ == old(code)@ + name_of(level as int),
{
    let n = level_name(level);
    put(code, n.as_slice());
}

/// The local depth one binder further in.
fn deeper(d: u64) -> (r: u64)
    ensures
        r == up(d as nat),
{
    if d < u64::MAX {
        d + 1
    } else {
        d
    }
}

/// Appends the text of `term`, printed `d` binders below level `base`.
fn build(code: &mut Vec<u8>, term: &Term, base: i32, d: u64)
    ensures
        final(code)@ == old(code)@ + render(term@, base as int, d as nat),
    decreases term, 1int,
{
    let ghost c0 = code@;
    let inner: i128 = base as i128 + deeper(d) as i128;
    match term {
        Term::Var { idx } => {
            put_name(code, base as i128 + d as i128 - *idx as i128);
        },
        Term::App { fun, arg, .. } => {
            code.push(58);
            build(code, fun, base, d);
            code.push(32);
            build(code, arg, base, d);
            assert(code@ =~= c0 + render(term@, base as int, d as nat));
        },
        Term::Univ => {
            code.push(42);
        },
        Term::Mks { typ, fst, snd, .. } => {
            code.push(44);
            build(code, typ, base, d);
            code.push(32);
            build(code, fst, base, d);
            code.push(32);
            build(code, snd, base, d);
            assert(code@ =~= c0 + render(term@, base as int, d as nat));
        },
        Term::Ctr { nam, idt } => {
            code.push(46);
            put(code, nam.as_slice());
            code.push(32);
            build(code, idt, base, d);
            assert(code@ =~= c0 + render(term@, base as int, d as nat));
        },
        Term::Bxv { val } => {
            code.push(43);
            build(code, val, base, d);
            assert(code@ =~= c0 + render(term@, base as int, d as nat));
        },
        Term::Bxt { typ } => {
            code.push(33);
            build(code, typ, base, d);
            assert(code@ =~= c0 + render(term@, base as int, d as nat));
        },
        Term::Ref { nam } => {
            code.push(39);
            put(code, nam.as_slice());
            assert(code@ =~= c0 + render(term@, base as int, d as nat));
        },
        _ => {
            build_binder(code, term, base, d);
        },
    }
}

/// `build` for the nodes that bind variables.
#[verifier::rlimit(100)]
fn build_binder(code: &mut Vec<u8>, term: &Term, base: i32, d: u64)
    requires
        term is Lam || term is All || term is Sig || term is Spt || term is Idt || term is Cas
            || term is Dup,
    ensures
        final(code)@ == old(code)@ + render(term@, base as int, d as nat),
    decreases term, 0int,
{
    let ghost c0 = code@;
    let inner: i128 = base as i128 + deeper(d) as i128;
    match term {
        Term::Lam { typ, bod, .. } => {
            code.push(35);
            put_name(code, inner);
            code.push(32);
            build(code, typ, base, d);
            code.push(32);
            build(code, bod, base, deeper(d));
            assert(code@ =~= c0 + render(term@, base as int, d as nat));
        },
        Term::All { typ, bod, .. } => {
            code.push(64);
            put_name(code, inner);
            code.push(32);
            build(code, typ, base, d);
            code.push(32);
            build(code, bod, base, deeper(d));
            assert(code@ =~= c0 + render(term@, base as int, d as nat));
        },
        Term::Sig { fst, snd, .. } => {
            code.push(38);
            put_name(code, inner);
            code.push(32);
            build(code, fst, base, d);
            code.push(32);
            build(code, snd, base, deeper(d));
            assert(code@ =~= c0 + render(term@, base as int, d as nat));
        },
        Term::Spt { val, ret, bod, .. } => {
            code.push(94);
            build(code, val, base, d);
            code.push(32);
            put_name(code, inner);
            code.push(32);
            build(code, ret, base, deeper(d));
            code.push(32);
            put_name(code, inner);
            code.push(32);
            put_name(code, base as i128 + deeper(deeper(d)) as i128);
            code.push(32);
            build(code, bod, base, deeper(deeper(d)));
            assert(code@ =~= c0 + render(term@, base as int, d as nat));
        },
        Term::Idt { typ, ctr, .. } => {
            code.push(36);
            put_name(code, inner);
            code.push(32);
            build(code, typ, base, d);
            build_arms(code, ctr, base, deeper(d));
            code.push(32);
            code.push(59);
            assert(code@ =~= c0 + render(term@, base as int, d as nat));
        },
        Term::Cas { idt, val, ret, cas } => {
            code.push(126);
            build(code, idt, base, d);
            code.push(32);
            build(code, val, base, d);
            code.push(32);
            put_name(code, inner);
            code.push(32);
            build(code, ret, base, deeper(d));
            build_arms(code, cas, base, d);
            code.push(32);
            code.push(59);
            assert(code@ =~= c0 + render(term@, base as int, d as nat));
        },
        Term::Dup { val, bod, .. } => {
            code.push(61);
            put_name(code, inner);
            code.push(32);
            build(code, val, base, d);
            code.push(32);
            build(code, bod, base, deeper(d));
            assert(code@ =~= c0 + render(term@, base as int, d as nat));
        },
        _ => {},
    }
}

/// Appends the text of a list of entries.
fn build_arms(code: &mut Vec<u8>, s: &Vec<Arm>, base: i32, d: u64)
    ensures
        final(code)@ == old(code)@ + render_arms(crate::term::arms_view(s@), base as int, d as nat),
    decreases s, 2int,
{
    let ghost c0 = code@;
    let ghost v = crate::term::arms_view(s@);
    let mut i: usize = 0;
    assert(v.subrange(0, 0) =~= Seq::<(Seq<u8>, Tm)>::empty());
    while i < s.len()
        invariant
            i <= s@.len(),
            v == crate::term::arms_view(s@),
            code@ == c0 + render_arms(v.subrange(0, i as int), base as int, d as nat),
        decreases s@.len() - i,
    {
        let ghost before = code@;
        code.push(32);
        code.push(124);
        put(code, s[i].0.as_slice());
        code.push(32);
        build(code, &s[i].1, base, d);
        assert(v.subrange(0, i + 1).subrange(0, i as int) =~= v.subrange(0, i as int));
        assert(code@ =~= before + spaced(seq![32u8, 124u8] + v[i as int].0, render(v[i as int].1, base as int, d as nat)));
        i += 1;
        assert(code@ =~= c0 + render_arms(v.subrange(0, i as int), base as int, d as nat));
    }
    assert(v.subrange(0, i as int) =~= v);
}

/// The text of `term`, with binder names counted from level `dph`. The names
/// printed as they are (constructors, entries, references) must hold no space
/// or newline for the text to read back: for a closed term that
/// `round_trip::printable` admits, `from_string` reads the text printed at
/// level 0 back to a term that `equals` it (`round_trip::lemma_round_trip`).
pub fn to_string(term: &Term, dph: i32) -> (r: Vec<u8>)
    ensures
        r@ == render(term@, dph as int, 0),
{
    let mut code: Vec<u8> = Vec::new();
    build(&mut code, term, dph, 0);
    assert(code@ =~= render(term@, dph as int, 0));
    code
}

/// An entry of the parser's scope: a name, with the value of a local
/// definition, or `None` for a binder.
pub type ScopeEntry = (Vec<u8>, Option<Term>);

/// The number of binders among the entries.
pub open spec fn binders(s: Seq<ScopeEntry>) -> nat
    decreases s.len(),
{
    if s.len() == 0 {
        0
    } else {
        binders(s.drop_last()) + if s.last().1 is None {
            1nat
        } else {
            0nat
        }
    }
}

/// Every local definition of the scope is valid where it was made.
#[verifier::opaque]
pub open spec fn scope_ok(s: Seq<ScopeEntry>) -> bool {
    forall|p: int|
        #![trigger s[p]]
        0 <= p < s.len() && s[p].1 is Some ==> scoped(s[p].1->0@, binders(s.subrange(0, p)))
}

/// `a` is what is left of `b` after reading some of it.
pub open spec fn suffix(a: Seq<u8>, b: Seq<u8>) -> bool {
    a.len() <= b.len() && a == b.subrange(b.len() - a.len(), b.len() as int)
}

proof fn lemma_suffix_trans(a: Seq<u8>, b: Seq<u8>, c: Seq<u8>)
    requires
        suffix(a, b),
        suffix(b, c),
    ensures
        suffix(a, c),
{
    assert(a =~= c.subrange(c.len() - a.len(), c.len() as int));
}

proof fn lemma_binders_push(s: Seq<ScopeEntry>, e: ScopeEntry)
    ensures
        binders(s.push(e)) == binders(s) + if e.1 is None {
            1nat
        } else {
            0nat
        },
{
    assert(s.push(e).drop_last() =~= s);
}

proof fn lemma_binders_len(s: Seq<ScopeEntry>)
    ensures
        binders(s) <= s.len(),
    decreases s.len(),
{
    if s.len() > 0 {
        lemma_binders_len(s.drop_last());
    }
}

proof fn lemma_scope_push(s: Seq<ScopeEntry>, e: ScopeEntry)
    requires
        scope_ok(s),
        e.1 is Some ==> scoped(e.1->0@, binders(s)),
    ensures
        scope_ok(s.push(e)),
{
    reveal(scope_ok);
    assert forall|p: int| #![trigger s.push(e)[p]]
        0 <= p < s.push(e).len() && s.push(e)[p].1 is Some implies scoped(
        s.push(e)[p].1->0@,
        binders(s.push(e).subrange(0, p)),
    ) by {
        if p < s.len() {
            assert(s.push(e).subrange(0, p) =~= s.subrange(0, p));
            assert(s[p] == s.push(e)[p]);
        } else {
            assert(s.push(e).subrange(0, p) =~= s);
        }
    }
}

proof fn lemma_scope_at(s: Seq<ScopeEntry>, p: int)
    requires
        scope_ok(s),
        0 <= p < s.len(),
        s[p].1 is Some,
    ensures
        scoped(s[p].1->0@, binders(s.subrange(0, p))),
{
    reveal(scope_ok);
}

/// A copy of a byte slice.
fn to_bytes(b: &[u8]) -> (r: Vec<u8>)
    ensures
        r@ == b@,
{
    let mut r: Vec<u8> = Vec::new();
    put(&mut r, b);
    assert(r@ =~= b@);
    r
}

/// Byte-slice equality.
fn same_slice(a: &[u8], b: &[u8]) -> (r: bool)
    ensures
        r == (a@ == b@),
{
    if a.len() != b.len() {
        return false;
    }
    let mut i: usize = 0;
    while i < a.len()
        invariant
            i <= a@.len(),
            a@.len() == b@.len(),
            forall|j: int| 0 <= j < i ==> a@[j] == b@[j],
        decreases a@.len() - i,
    {
        if a[i] != b[i] {
            return false;
        }
        i += 1;
    }
    assert(a@ =~= b@);
    true
}

/// The term a name stands for: the innermost binder or definition of that
/// name, else a reference to a global definition.
fn resolve(nam: &[u8], ctx: &Vec<ScopeEntry>) -> (r: Term)
    requires
        scope_ok(ctx@),
    ensures
        scoped(r@, binders(ctx@)),
        r@ == resolve_at(scope_view(ctx@), nam@, 0),
{
    let ghost sv = scope_view(ctx@);
    let mut i: usize = ctx.len();
    let mut idx: u64 = 0;
    assert(sv.subrange(0, sv.len() as int) =~= sv);
    assert(ctx@.len() <= u64::MAX);
    proof {
        lemma_binders_len(ctx@);
        assert(ctx@.subrange(0, ctx@.len() as int) =~= ctx@);
    }
    while i > 0
        invariant
            i <= ctx@.len(),
            idx + binders(ctx@.subrange(0, i as int)) == binders(ctx@),
            binders(ctx@) <= ctx@.len(),
            ctx@.len() <= u64::MAX,
            scope_ok(ctx@),
            sv == scope_view(ctx@),
            resolve_at(sv, nam@, 0) == resolve_at(sv.subrange(0, i as int), nam@, idx as nat),
        decreases i,
    {
        let ghost pre = ctx@.subrange(0, i - 1);
        assert(ctx@.subrange(0, i as int).drop_last() =~= pre);
        assert(sv.subrange(0, i as int).drop_last() =~= sv.subrange(0, i - 1));
        assert(sv.subrange(0, i as int).last() == sv[i - 1]);
        assert(sv[i - 1].0 == ctx@[i - 1].0@);
        if same_slice(ctx[i - 1].0.as_slice(), nam) {
            match &ctx[i - 1].1 {
                Some(v) => {
                    assert(ctx@[i - 1].1 is Some);
                    proof {
                        lemma_scope_at(ctx@, i - 1);
                        lemma_shift_scoped(v@, binders(pre), idx as nat, 0);
                    }
                    return crate::term::shift(v, idx, 0);
                },
                None => {
                    let z = Term::Var { idx };
                    assert(z@ == Tm::Var { idx });
                    return z;
                },
            }
        }
        assert(ctx@.subrange(0, i as int).last() == ctx@[i - 1]);
        if ctx[i - 1].1.is_none() {
            idx += 1;
        }
        i -= 1;
    }
    let r = Term::Ref { nam: to_bytes(nam) };
    assert(r@ == Tm::Ref { nam: nam@ });
    assert(sv.subrange(0, 0) =~= Seq::<(Seq<u8>, Option<Tm>)>::empty());
    r
}

/// The scope as the grammar sees it: for each entry, its name and the value
/// of a local definition, or `None` for a binder.
pub type Bindings = Seq<(Seq<u8>, Option<Tm>)>;

/// The model of a parser scope.
pub open spec fn scope_view(s: Seq<ScopeEntry>) -> Bindings {
    Seq::new(
        s.len(),
        |i: int|
            (
                s[i].0@,
                match s[i].1 {
                    Some(t) => Some(t@),
                    None => None,
                },
            ),
    )
}

/// `s` without its leading spaces and newlines.
pub open spec fn skip(s: Seq<u8>) -> Seq<u8>
    decreases s.len(),
{
    if s.len() > 0 && is_white(s[0]) {
        skip(s.subrange(1, s.len() as int))
    } else {
        s
    }
}

pub(crate) proof fn lemma_skip_len(s: Seq<u8>)
    ensures
        skip(s).len() <= s.len(),
    decreases s.len(),
{
    if s.len() > 0 && is_white(s[0]) {
        lemma_skip_len(s.subrange(1, s.len() as int));
    }
}

/// The number of bytes before the first space or newline of `s`.
pub open spec fn name_len(s: Seq<u8>) -> nat
    decreases s.len(),
{
    if s.len() > 0 && !is_white(s[0]) {
        1 + name_len(s.subrange(1, s.len() as int))
    } else {
        0
    }
}

/// The name at the start of `s`.
pub open spec fn name_in(s: Seq<u8>) -> Seq<u8> {
    s.subrange(0, name_len(s) as int)
}

/// What follows the name at the start of `s`.
pub open spec fn after_name(s: Seq<u8>) -> Seq<u8> {
    s.subrange(name_len(s) as int, s.len() as int)
}

/// What a name stands for in the scope `sc`, below `idx` binders already
/// passed: the innermost entry of that name, a definition's value moved in
/// under those binders, else a reference to a global definition.
pub open spec fn resolve_at(sc: Bindings, nam: Seq<u8>, idx: nat) -> Tm
    decreases sc.len(),
{
    if sc.len() == 0 {
        Tm::Ref { nam }
    } else if sc.last().0 == nam {
        match sc.last().1 {
            Some(v) => shift(v, idx, 0),
            None => Tm::Var { idx: idx as u64 },
        }
    } else {
        resolve_at(
            sc.drop_last(),
            nam,
            if sc.last().1 is None {
                idx + 1
            } else {
                idx
            },
        )
    }
}

/// A glyph of a node that binds one name before its second part:
/// `/` definition, `#` lambda, `@` function type, `&` pair type, `=` duplication.
pub open spec fn binds_one(g: u8) -> bool {
    g == 47 || g == 35 || g == 64 || g == 38 || g == 61
}

/// A glyph of a node whose parts are read in the same scope:
/// `:` application, `,` pair, `.` constructor, `+` box, `!` box type.
pub open spec fn binds_none(g: u8) -> bool {
    g == 58 || g == 44 || g == 46 || g == 43 || g == 33
}

/// The node that a glyph of `binds_one` builds from its name and two parts;
/// a definition is its body, with the value already put for the name.
pub open spec fn bind_node(g: u8, nam: Seq<u8>, first: Tm, second: Tm) -> Tm {
    if g == 47 {
        second
    } else if g == 35 {
        Tm::Lam { era: false, nam, typ: Box::new(first), bod: Box::new(second) }
    } else if g == 64 {
        Tm::All { era: false, nam, typ: Box::new(first), bod: Box::new(second) }
    } else if g == 38 {
        Tm::Sig { era: false, nam, fst: Box::new(first), snd: Box::new(second) }
    } else {
        Tm::Dup { nam, val: Box::new(first), bod: Box::new(second) }
    }
}

/// The grammar: the term written at the start of `code` in the scope `sc`,
/// with what is left of `code` after it; `None` when the text ends before the
/// term does. The length tests only bound the recursion; what the parser
/// reads is always shorter.
pub open spec fn read(code: Seq<u8>, sc: Bindings) -> Option<(Seq<u8>, Tm)>
    decreases code.len(), 0int,
{
    let c = skip(code);
    if c.len() == 0 || c.len() > code.len() {
        None
    } else if c[0] == 42 {
        Some((c.subrange(1, c.len() as int), Tm::Univ))
    } else if c[0] == 39 {
        let tail = c.subrange(1, c.len() as int);
        Some((after_name(tail), Tm::Ref { nam: name_in(tail) }))
    } else if binds_one(c[0]) || binds_none(c[0]) || c[0] == 36 || c[0] == 126 || c[0] == 94 {
        read_after(c[0], c.subrange(1, c.len() as int), sc)
    } else if name_len(c) == 0 {
        None
    } else {
        Some((after_name(c), resolve_at(sc, name_in(c), 0)))
    }
}

/// The rest of a node after its glyph `g`, read from `tail`.
pub open spec fn read_after(g: u8, tail: Seq<u8>, sc: Bindings) -> Option<(Seq<u8>, Tm)>
    decreases tail.len(), 3int,
{
    if binds_one(g) {
        read_one(g, tail, sc)
    } else if binds_none(g) {
        read_plain(g, tail, sc)
    } else if g == 36 {
        read_idt(tail, sc)
    } else if g == 126 {
        read_cas(tail, sc)
    } else {
        read_spt(tail, sc)
    }
}

/// A definition or a one-name binder after its glyph `g`: `x v b`.
pub open spec fn read_one(g: u8, tail: Seq<u8>, sc: Bindings) -> Option<(Seq<u8>, Tm)>
    decreases tail.len(), 2int,
{
    let nam = name_in(tail);
    let r1 = after_name(tail);
    if r1.len() > tail.len() {
        None
    } else {
        match read(r1, sc) {
            None => None,
            Some((r2, first)) => if r2.len() > tail.len() {
                None
            } else {
                let e = (
                    nam,
                    if g == 47 {
                        Some(first)
                    } else {
                        None
                    },
                );
                match read(r2, sc.push(e)) {
                    None => None,
                    Some((r3, second)) => Some((r3, bind_node(g, nam, first, second))),
                }
            },
        }
    }
}

/// A node of `binds_none` after its glyph `g`.
pub open spec fn read_plain(g: u8, tail: Seq<u8>, sc: Bindings) -> Option<(Seq<u8>, Tm)>
    decreases tail.len(), 2int,
{
    let nam = if g == 46 {
        name_in(tail)
    } else {
        Seq::empty()
    };
    let r1 = if g == 46 {
        after_name(tail)
    } else {
        tail
    };
    if r1.len() > tail.len() {
        None
    } else {
        match read(r1, sc) {
            None => None,
            Some((r2, a)) => if g == 46 {
                Some((r2, Tm::Ctr { nam, idt: Box::new(a) }))
            } else if g == 43 {
                Some((r2, Tm::Bxv { val: Box::new(a) }))
            } else if g == 33 {
                Some((r2, Tm::Bxt { typ: Box::new(a) }))
            } else if r2.len() > tail.len() {
                None
            } else {
                match read(r2, sc) {
                    None => None,
                    Some((r3, b)) => if g == 58 {
                        Some((r3, Tm::App { era: false, fun: Box::new(a), arg: Box::new(b) }))
                    } else if r3.len() > tail.len() {
                        None
                    } else {
                        match read(r3, sc) {
                            None => None,
                            Some((r4, c)) => Some(
                                (
                                    r4,
                                    Tm::Mks {
                                        era: false,
                                        typ: Box::new(a),
                                        fst: Box::new(b),
                                        snd: Box::new(c),
                                    },
                                ),
                            ),
                        }
                    },
                }
            },
        }
    }
}

/// An inductive type after its glyph: `x T |c C ... ;`.
pub open spec fn read_idt(tail: Seq<u8>, sc: Bindings) -> Option<(Seq<u8>, Tm)>
    decreases tail.len(), 2int,
{
    let nam = name_in(tail);
    let r1 = after_name(tail);
    if r1.len() > tail.len() {
        None
    } else {
        match read(r1, sc) {
            None => None,
            Some((r2, typ)) => if skip(r2).len() > tail.len() {
                None
            } else {
                match arms_from(skip(r2), sc.push((nam, None))) {
                    None => None,
                    Some((r3, ctr)) => Some((r3, Tm::Idt { nam, typ: Box::new(typ), ctr })),
                }
            },
        }
    }
}

/// A match after its glyph: `I v x M |c f ... ;`.
pub open spec fn read_cas(tail: Seq<u8>, sc: Bindings) -> Option<(Seq<u8>, Tm)>
    decreases tail.len(), 2int,
{
    match read(tail, sc) {
        None => None,
        Some((r1, idt)) => if r1.len() > tail.len() {
            None
        } else {
            match read(r1, sc) {
                None => None,
                Some((r2, val)) => {
                    let r2a = skip(r2);
                    let nam = name_in(r2a);
                    let r3 = after_name(r2a);
                    if r3.len() > tail.len() {
                        None
                    } else {
                        match read(r3, sc.push((nam, None))) {
                            None => None,
                            Some((r4, ret)) => if skip(r4).len() > tail.len() {
                                None
                            } else {
                                match arms_from(skip(r4), sc) {
                                    None => None,
                                    Some((r5, cas)) => Some(
                                        (
                                            r5,
                                            Tm::Cas {
                                                idt: Box::new(idt),
                                                val: Box::new(val),
                                                ret: Box::new(ret),
                                                cas,
                                            },
                                        ),
                                    ),
                                }
                            },
                        }
                    }
                },
            }
        },
    }
}

/// A split after its glyph: `v x M y z b`.
pub open spec fn read_spt(tail: Seq<u8>, sc: Bindings) -> Option<(Seq<u8>, Tm)>
    decreases tail.len(), 2int,
{
    match read(tail, sc) {
        None => None,
        Some((r1, val)) => {
            let r1a = skip(r1);
            let x = name_in(r1a);
            let r2 = after_name(r1a);
            if r2.len() > tail.len() {
                None
            } else {
                match read(r2, sc.push((x, None))) {
                    None => None,
                    Some((r3, ret)) => {
                        let r3b = skip(r3);
                        let fnm = name_in(r3b);
                        let r4 = skip(after_name(r3b));
                        let snm = name_in(r4);
                        let r5 = after_name(r4);
                        if r5.len() > tail.len() {
                            None
                        } else {
                            match read(r5, sc.push((fnm, None)).push((snm, None))) {
                                None => None,
                                Some((r6, bod)) => Some(
                                    (
                                        r6,
                                        Tm::Spt {
                                            era: false,
                                            val: Box::new(val),
                                            ret: Box::new(ret),
                                            fnm,
                                            snm,
                                            bod: Box::new(bod),
                                        },
                                    ),
                                ),
                            }
                        }
                    },
                }
            }
        },
    }
}

/// Entries ` |name term`, read from `c` (already past any whitespace) up to
/// the `;` that ends the list; the text after that `;`. `None` when an entry
/// or the `;` is missing.
pub open spec fn arms_from(c: Seq<u8>, sc: Bindings) -> Option<(Seq<u8>, Arms)>
    decreases c.len(), 1int,
{
    if c.len() > 0 && c[0] == 124 {
        let inner = c.subrange(1, c.len() as int);
        let nam = name_in(inner);
        let a = after_name(inner);
        if a.len() > c.len() {
            None
        } else {
            match read(a, sc) {
                None => None,
                Some((r, t)) => if skip(r).len() >= c.len() {
                    None
                } else {
                    match arms_from(skip(r), sc) {
                        None => None,
                        Some((rf, more)) => Some((rf, seq![(nam, t)] + more)),
                    }
                },
            }
        }
    } else if c.len() > 0 && c[0] == 59 {
        Some((c.subrange(1, c.len() as int), Seq::empty()))
    } else {
        None
    }
}

/// The model of a parse result: what is left of the text, and the term.
pub open spec fn opt_read(r: Option<(&[u8], Term)>) -> Option<(Seq<u8>, Tm)> {
    match r {
        Some((rest, t)) => Some((rest@, t@)),
        None => None,
    }
}

proof fn lemma_scope_view_push(s: Seq<ScopeEntry>, e: ScopeEntry)
    ensures
        scope_view(s.push(e)) == scope_view(s).push((e.0@, opt_view(e.1))),
{
    assert(scope_view(s.push(e)) =~= scope_view(s).push((e.0@, opt_view(e.1))));
}

/// What a parse left of `code`, and the term read, valid in `n` binders.
pub open spec fn parsed(r: Option<(&[u8], Term)>, code: Seq<u8>, n: nat) -> bool {
    match r {
        Some((rest, t)) => rest@.len() < code.len() && suffix(rest@, code) && scoped(t@, n),
        None => true,
    }
}

/// Parses a term in the scope extended with `nam`, bound to `val` if it is a
/// definition, or as a binder otherwise.
fn parse_under<'a>(code: &'a [u8], ctx: &mut Vec<ScopeEntry>, nam: &[u8], val: Option<Term>) -> (r:
    Option<(&'a [u8], Term)>)
    requires
        scope_ok(old(ctx)@),
        val is Some ==> scoped(val->0@, binders(old(ctx)@)),
    ensures
        final(ctx)@ == old(ctx)@,
        parsed(
            r,
            code@,
            binders(old(ctx)@) + if val is None {
                1nat
            } else {
                0nat
            },
        ),
        opt_read(r) == read(code@, scope_view(old(ctx)@).push((nam@, opt_view(val)))),
    decreases code@.len(), 1int,
{
    let e = (to_bytes(nam), val);
    proof {
        lemma_scope_push(ctx@, e);
        lemma_binders_push(ctx@, e);
        lemma_scope_view_push(ctx@, e);
    }
    ctx.push(e);
    let r = parse_term(code, ctx);
    ctx.pop();
    assert(ctx@ =~= old(ctx)@);
    r
}

/// Parses entries ` |name term` up to the `;` that ends the list.
#[verifier::rlimit(100)]
fn parse_arms<'a>(code: &'a [u8], ctx: &mut Vec<ScopeEntry>) -> (r: Option<(&'a [u8], Vec<Arm>)>)
    requires
        scope_ok(old(ctx)@),
    ensures
        final(ctx)@ == old(ctx)@,
        match r {
            Some((left, read_arms)) => suffix(left@, code@) && !scope_flags(
                arms_view(read_arms@),
                binders(old(ctx)@),
            ).contains(false),
            None => true,
        },
        match r {
            Some((left, read_arms)) => Some((left@, arms_view(read_arms@))),
            None => None,
        } == arms_from(skip(code@), scope_view(old(ctx)@)),
    decreases code@.len(), 2int,
{
    let mut arms: Vec<Arm> = Vec::new();
    let mut rest = skip_whites(code);
    let ghost n = binders(ctx@);
    let ghost sv = scope_view(ctx@);
    let ghost start = skip(code@);
    assert(start == rest@);
    assert(forall|x: Arms| arms_view(arms@) + x =~= x);
    while rest.len() > 0 && rest[0] == 124
        invariant
            ctx@ == old(ctx)@,
            n == binders(ctx@),
            sv == scope_view(ctx@),
            start == skip(code@),
            scope_ok(ctx@),
            suffix(rest@, code@),
            forall|j: int| 0 <= j < arms@.len() ==> scoped(#[trigger] arms@[j].1@, n),
            arms_from(start, sv) == match arms_from(rest@, sv) {
                Some((rf, more)) => Some((rf, arms_view(arms@) + more)),
                None => None,
            },
        decreases rest@.len(),
    {
        let inner = &rest[1..rest.len()];
        assert(suffix(inner@, rest@));
        let (after, nam) = parse_name(inner);
        proof {
            lemma_suffix_trans(after@, inner@, rest@);
            lemma_suffix_trans(after@, rest@, code@);
        }
        match parse_term(after, ctx) {
            Some((next, t)) => {
                proof {
                    lemma_suffix_trans(next@, after@, code@);
                }
                let ghost old_arms = arms_view(arms@);
                arms.push((to_bytes(nam), t));
                let next2 = skip_whites(next);
                proof {
                    lemma_suffix_trans(next2@, next@, code@);
                    assert(arms_view(arms@) =~= old_arms.push((nam@, t@)));
                    assert forall|more: Arms| old_arms + (seq![(nam@, t@)] + more) =~= arms_view(arms@)
                        + more by {}
                }
                rest = next2;
            },
            None => {
                assert(arms_from(rest@, sv) is None);
                return None;
            },
        }
    }
    if rest.len() > 0 && rest[0] == 59 {
        let after = &rest[1..rest.len()];
        assert(suffix(after@, rest@));
        proof {
            lemma_suffix_trans(after@, rest@, code@);
        }
        let ghost v = arms_view(arms@);
        assert forall|j: int| 0 <= j < v.len() implies #[trigger] scope_flags(v, n)[j] by {
            assert(scoped(arms@[j].1@, n));
        }
        assert(v + Seq::<(Seq<u8>, Tm)>::empty() =~= v);
        Some((after, arms))
    } else {
        None
    }
}

/// Reads one term from the start of `code`, in the scope `ctx`: what is left
/// of `code`, and the term, whose variables all have binders in `ctx`; this
/// is exactly what the grammar `read` gives, `None` when the text ends before
/// the term does.
pub fn parse_term<'a>(code: &'a [u8], ctx: &mut Vec<ScopeEntry>) -> (r: Option<(&'a [u8], Term)>)
    requires
        scope_ok(old(ctx)@),
    ensures
        final(ctx)@ == old(ctx)@,
        parsed(r, code@, binders(old(ctx)@)),
        opt_read(r) == read(code@, scope_view(old(ctx)@)),
    decreases code@.len(), 0int,
{
    let ghost sv = scope_view(ctx@);
    let code0 = code;
    let code = skip_whites(code);
    if code.len() == 0 {
        return None;
    }
    let glyph = code[0];
    let tail = &code[1..code.len()];
    assert(suffix(tail@, code@));
    assert(suffix(tail@, code0@)) by {
        lemma_suffix_trans(tail@, code@, code0@);
    }
    if glyph == 42 {
        let u = Term::Univ;
        assert(u@ == Tm::Univ);
        return Some((tail, u));
    }
    if glyph == 39 {
        let (r1, nam) = parse_name(tail);
        proof {
            lemma_suffix_trans(r1@, tail@, code0@);
        }
        let t = Term::Ref { nam: to_bytes(nam) };
        assert(t@ == Tm::Ref { nam: nam@ });
        return Some((r1, t));
    }
    if glyph == 47 || glyph == 35 || glyph == 64 || glyph == 38 || glyph == 61 || glyph == 58
        || glyph == 44 || glyph == 46 || glyph == 43 || glyph == 33 || glyph == 36 || glyph == 126
        || glyph == 94 {
        assert(read(code0@, sv) == read_after(glyph, tail@, sv));
        let r = if glyph == 47 || glyph == 35 || glyph == 64 || glyph == 38 || glyph == 61 {
            parse_one(tail, ctx, glyph)
        } else if glyph == 36 {
            parse_idt(tail, ctx)
        } else if glyph == 126 {
            parse_cas(tail, ctx)
        } else if glyph == 94 {
            parse_spt(tail, ctx)
        } else {
            parse_plain(tail, ctx, glyph)
        };
        if let Some((r1, _)) = &r {
            proof {
                lemma_suffix_trans(r1@, tail@, code0@);
            }
        }
        return r;
    }
    let (r1, nam) = parse_name(code);
    if nam.len() == 0 {
        return None;
    }
    proof {
        lemma_suffix_trans(r1@, code@, code0@);
    }
    Some((r1, resolve(nam, ctx)))
}

/// What a node parser leaves of `tail`, and the term, valid in `n` binders.
pub open spec fn parsed_tail(r: Option<(&[u8], Term)>, tail: Seq<u8>, n: nat) -> bool {
    match r {
        Some((rest, t)) => suffix(rest@, tail) && scoped(t@, n),
        None => true,
    }
}

/// A definition `/x v b`, or a binder `#x T b`, `@x A B`, `&x A B`,
/// `=x v b`, read after its glyph.
#[verifier::rlimit(100)]
fn parse_one<'a>(tail: &'a [u8], ctx: &mut Vec<ScopeEntry>, glyph: u8) -> (r: Option<(&'a [u8], Term)>)
    requires
        scope_ok(old(ctx)@),
        binds_one(glyph),
    ensures
        final(ctx)@ == old(ctx)@,
        parsed_tail(r, tail@, binders(old(ctx)@)),
        opt_read(r) == read_one(glyph, tail@, scope_view(old(ctx)@)),
    decreases tail@.len(), 3int,
{
    let (r1, nam) = parse_name(tail);
    let (r2, first) = match parse_term(r1, ctx) {
        Some(p) => p,
        None => return None,
    };
    proof {
        lemma_suffix_trans(r2@, r1@, tail@);
    }
    let keep = if glyph == 47 {
        Some(copy_term(&first))
    } else {
        None
    };
    assert(opt_view(keep) == if glyph == 47 {
        Some(first@)
    } else {
        None::<Tm>
    });
    let (r3, second) = match parse_under(r2, ctx, nam, keep) {
        Some(p) => p,
        None => return None,
    };
    proof {
        lemma_suffix_trans(r3@, r2@, tail@);
    }
    let nm = to_bytes(nam);
    let t = if glyph == 47 {
        second
    } else if glyph == 35 {
        Term::Lam { era: false, nam: nm, typ: Box::new(first), bod: Box::new(second) }
    } else if glyph == 64 {
        Term::All { era: false, nam: nm, typ: Box::new(first), bod: Box::new(second) }
    } else if glyph == 38 {
        Term::Sig { era: false, nam: nm, fst: Box::new(first), snd: Box::new(second) }
    } else {
        Term::Dup { nam: nm, val: Box::new(first), bod: Box::new(second) }
    };
    assert(t@ == bind_node(glyph, nam@, first@, second@));
    Some((r3, t))
}

/// An application `:f a`, a pair `,P a b`, a constructor `.c I`, a box `+v`
/// or a box type `!T`, read after its glyph.
fn parse_plain<'a>(tail: &'a [u8], ctx: &mut Vec<ScopeEntry>, glyph: u8) -> (r: Option<(&'a [u8], Term)>)
    requires
        scope_ok(old(ctx)@),
        binds_none(glyph),
    ensures
        final(ctx)@ == old(ctx)@,
        parsed_tail(r, tail@, binders(old(ctx)@)),
        opt_read(r) == read_plain(glyph, tail@, scope_view(old(ctx)@)),
    decreases tail@.len(), 3int,
{
    let (r1, nam) = if glyph == 46 {
        parse_name(tail)
    } else {
        (tail, &tail[0..0])
    };
    assert(glyph != 46 ==> nam@ =~= Seq::<u8>::empty());
    assert(tail@.subrange(0, tail@.len() as int) =~= tail@);
    assert(suffix(r1@, tail@));
    let (r2, a) = match parse_term(r1, ctx) {
        Some(p) => p,
        None => return None,
    };
    proof {
        lemma_suffix_trans(r2@, r1@, tail@);
    }
    if glyph == 46 {
        return Some((r2, Term::Ctr { nam: to_bytes(nam), idt: Box::new(a) }));
    }
    if glyph == 43 {
        return Some((r2, Term::Bxv { val: Box::new(a) }));
    }
    if glyph == 33 {
        return Some((r2, Term::Bxt { typ: Box::new(a) }));
    }
    let (r3, b) = match parse_term(r2, ctx) {
        Some(p) => p,
        None => return None,
    };
    proof {
        lemma_suffix_trans(r3@, r2@, tail@);
    }
    if glyph == 58 {
        return Some((r3, Term::App { era: false, fun: Box::new(a), arg: Box::new(b) }));
    }
    let (r4, c) = match parse_term(r3, ctx) {
        Some(p) => p,
        None => return None,
    };
    proof {
        lemma_suffix_trans(r4@, r3@, tail@);
    }
    Some((r4, Term::Mks { era: false, typ: Box::new(a), fst: Box::new(b), snd: Box::new(c) }))
}

/// An inductive type `$x T |c C ... ;`, read after its glyph.
#[verifier::rlimit(100)]
fn parse_idt<'a>(tail: &'a [u8], ctx: &mut Vec<ScopeEntry>) -> (r: Option<(&'a [u8], Term)>)
    requires
        scope_ok(old(ctx)@),
    ensures
        final(ctx)@ == old(ctx)@,
        parsed_tail(r, tail@, binders(old(ctx)@)),
        opt_read(r) == read_idt(tail@, scope_view(old(ctx)@)),
    decreases tail@.len(), 3int,
{
    let ghost sv = scope_view(ctx@);
    let (r1, nam) = parse_name(tail);
    let (r2, typ) = match parse_term(r1, ctx) {
        Some(p) => p,
        None => return None,
    };
    proof {
        lemma_suffix_trans(r2@, r1@, tail@);
    }
    let e = (to_bytes(nam), None);
    proof {
        lemma_scope_push(ctx@, e);
        lemma_binders_push(ctx@, e);
        lemma_scope_view_push(ctx@, e);
    }
    ctx.push(e);
    let ra = parse_arms(r2, ctx);
    ctx.pop();
    assert(ctx@ =~= old(ctx)@);
    proof {
        lemma_skip_len(r2@);
    }
    let (r3, ctr) = match ra {
        Some(p) => p,
        None => return None,
    };
    proof {
        lemma_suffix_trans(r3@, r2@, tail@);
    }
    assert(Some((r3@, arms_view(ctr@))) == arms_from(skip(r2@), sv.push((nam@, None::<Tm>))));
    proof {
        lemma_skip_len(r2@);
    }
    let t = Term::Idt { nam: to_bytes(nam), typ: Box::new(typ), ctr };
    assert(t@ == Tm::Idt { nam: nam@, typ: Box::new(typ@), ctr: arms_view(ctr@) });
    assert(read(r1@, sv) == Some((r2@, typ@)));
    Some((r3, t))
}

/// A match `~I v x M |c f ... ;`, read after its glyph.
#[verifier::rlimit(100)]
fn parse_cas<'a>(tail: &'a [u8], ctx: &mut Vec<ScopeEntry>) -> (r: Option<(&'a [u8], Term)>)
    requires
        scope_ok(old(ctx)@),
    ensures
        final(ctx)@ == old(ctx)@,
        parsed_tail(r, tail@, binders(old(ctx)@)),
        opt_read(r) == read_cas(tail@, scope_view(old(ctx)@)),
    decreases tail@.len(), 3int,
{
    let ghost sv = scope_view(ctx@);
    let (r1, idt) = match parse_term(tail, ctx) {
        Some(p) => p,
        None => return None,
    };
    let (r2, val) = match parse_term(r1, ctx) {
        Some(p) => p,
        None => return None,
    };
    let r2a = skip_whites(r2);
    let (r3, nam) = parse_name(r2a);
    proof {
        lemma_suffix_trans(r2@, r1@, tail@);
        lemma_suffix_trans(r2a@, r2@, tail@);
        lemma_suffix_trans(r3@, r2a@, tail@);
    }
    let (r4, ret) = match parse_under(r3, ctx, nam, None) {
        Some(p) => p,
        None => return None,
    };
    let ra = parse_arms(r4, ctx);
    proof {
        lemma_skip_len(r4@);
        lemma_suffix_trans(r4@, r3@, tail@);
    }
    let (r5, cas) = match ra {
        Some(p) => p,
        None => return None,
    };
    proof {
        lemma_suffix_trans(r5@, r4@, tail@);
    }
    assert(Some((r5@, arms_view(cas@))) == arms_from(skip(r4@), sv));
    proof {
        lemma_skip_len(r4@);
    }
    assert(read(tail@, sv) == Some((r1@, idt@)));
    assert(read(r1@, sv) == Some((r2@, val@)));
    assert(r2a@ == skip(r2@) && nam@ == name_in(r2a@) && r3@ == after_name(r2a@));
    assert(read(r3@, sv.push((nam@, None::<Tm>))) == Some((r4@, ret@)));
    let t = Term::Cas { idt: Box::new(idt), val: Box::new(val), ret: Box::new(ret), cas };
    assert(t@ == Tm::Cas {
        idt: Box::new(idt@),
        val: Box::new(val@),
        ret: Box::new(ret@),
        cas: arms_view(cas@),
    });
    Some((r5, t))
}

/// A split `^v x M y z b`, read after its glyph.
#[verifier::rlimit(100)]
#[verifier::spinoff_prover]
fn parse_spt<'a>(tail: &'a [u8], ctx: &mut Vec<ScopeEntry>) -> (r: Option<(&'a [u8], Term)>)
    requires
        scope_ok(old(ctx)@),
    ensures
        final(ctx)@ == old(ctx)@,
        parsed_tail(r, tail@, binders(old(ctx)@)),
        opt_read(r) == read_spt(tail@, scope_view(old(ctx)@)),
    decreases tail@.len(), 3int,
{
    let ghost sv = scope_view(ctx@);
    let (r1, val) = match parse_term(tail, ctx) {
        Some(p) => p,
        None => return None,
    };
    let r1a = skip_whites(r1);
    let (r2, x) = parse_name(r1a);
    proof {
        lemma_suffix_trans(r1a@, r1@, tail@);
        lemma_suffix_trans(r2@, r1a@, tail@);
    }
    let (r3, ret) = match parse_under(r2, ctx, x, None) {
        Some(p) => p,
        None => return None,
    };
    let r3b = skip_whites(r3);
    let (r3a, fnm) = parse_name(r3b);
    let r4 = skip_whites(r3a);
    let (r5, snm) = parse_name(r4);
    proof {
        lemma_suffix_trans(r3@, r2@, tail@);
        lemma_suffix_trans(r3b@, r3@, tail@);
        lemma_suffix_trans(r3a@, r3b@, tail@);
        lemma_suffix_trans(r4@, r3a@, tail@);
        lemma_suffix_trans(r5@, r4@, tail@);
    }
    let e = (to_bytes(fnm), None);
    proof {
        lemma_scope_push(ctx@, e);
        lemma_binders_push(ctx@, e);
        lemma_scope_view_push(ctx@, e);
    }
    ctx.push(e);
    let rb = parse_under(r5, ctx, snm, None);
    ctx.pop();
    assert(ctx@ =~= old(ctx)@);
    let (r6, bod) = match rb {
        Some(p) => p,
        None => return None,
    };
    proof {
        lemma_suffix_trans(r6@, r5@, tail@);
    }
    assert(read(tail@, sv) == Some((r1@, val@)));
    assert(r1a@ == skip(r1@) && x@ == name_in(r1a@) && r2@ == after_name(r1a@));
    assert(read(r2@, sv.push((x@, None::<Tm>))) == Some((r3@, ret@)));
    assert(r3b@ == skip(r3@) && fnm@ == name_in(r3b@) && r4@ == skip(after_name(r3b@)));
    assert(snm@ == name_in(r4@) && r5@ == after_name(r4@));
    assert(read(r5@, sv.push((fnm@, None::<Tm>)).push((snm@, None::<Tm>))) == Some((r6@, bod@)));
    let t = Term::Spt {
        era: false,
        val: Box::new(val),
        ret: Box::new(ret),
        fnm: to_bytes(fnm),
        snm: to_bytes(snm),
        bod: Box::new(bod),
    };
    Some((r6, t))
}

/// Reads the term written at the start of `code`, in the empty scope: the
/// term the grammar `read` gives, which has no free variables; `None` when the
/// text ends before the term does.
pub fn from_string(code: &[u8]) -> (r: Option<Term>)
    ensures
        opt_view(r) == match read(code@, Seq::empty()) {
            Some((_, t)) => Some(t),
            None => None,
        },
        match r {
            Some(t) => scoped(t@, 0),
            None => true,
        },
{
    let mut ctx: Vec<ScopeEntry> = Vec::new();
    assert(scope_view(ctx@) =~= Seq::<(Seq<u8>, Option<Tm>)>::empty());
    proof {
        reveal(scope_ok);
    }
    match parse_term(code, &mut ctx) {
        Some((_, t)) => Some(t),
        None => None,
    }
}

} // verus!
