//! Printing a term and reading the text back gives the same term, up to
//! binder names and erasure flags.
use vstd::prelude::*;

use crate::model::{alpha_eq, arms_eq, Arms, Tm};
use crate::syntax::{
    after_name, arms_from, binds_none, binds_one, is_white, letters, name_in, name_len, name_of,
    read, read_after, read_cas, read_idt, read_one, read_plain, read_spt, render, render_arms,
    resolve_at, skip, spaced, Bindings,
};

verus! {

/// No byte of `s` separates tokens.
pub open spec fn white_free(s: Seq<u8>) -> bool {
    forall|i: int| 0 <= i < s.len() ==> !is_white(#[trigger] s[i])
}

/// `s` is empty or starts with a space or a newline.
pub open spec fn token_end(s: Seq<u8>) -> bool {
    s.len() == 0 || is_white(s[0])
}

proof fn lemma_letters(n: nat)
    ensures
        white_free(letters(n)),
        n > 0 ==> letters(n).len() > 0 && 97 <= letters(n)[0] <= 122,
        forall|i: int| 0 <= i < letters(n).len() ==> 97 <= #[trigger] letters(n)[i] <= 122,
    decreases n,
{
    if n > 0 {
        lemma_letters(((n - 1) / 26) as nat);
    }
}

proof fn lemma_letters_injective(n: nat, m: nat)
    requires
        letters(n) == letters(m),
    ensures
        n == m,
    decreases n,
{
    lemma_letters(n);
    lemma_letters(m);
    if n > 0 && m > 0 {
        assert(letters(n)[0] == letters(m)[0]);
        assert(letters(n).drop_first() =~= letters(((n - 1) / 26) as nat));
        assert(letters(m).drop_first() =~= letters(((m - 1) / 26) as nat));
        lemma_letters_injective(((n - 1) / 26) as nat, ((m - 1) / 26) as nat);
        assert((n - 1) % 26 == (m - 1) % 26);
        assert(n - 1 == 26 * ((n - 1) / 26) + (n - 1) % 26) by (nonlinear_arith);
        assert(m - 1 == 26 * ((m - 1) / 26) + (m - 1) % 26) by (nonlinear_arith);
    }
}

/// The name of a positive level is a word of lower-case letters.
proof fn lemma_level_name(l: int)
    requires
        l > 0,
    ensures
        name_of(l) == letters(l as nat),
        white_free(name_of(l)),
        name_of(l).len() > 0,
        97 <= name_of(l)[0] <= 122,
{
    lemma_letters(l as nat);
    assert(name_of(l) =~= letters(l as nat));
}

proof fn lemma_name_len(x: Seq<u8>, r: Seq<u8>)
    requires
        white_free(x),
        token_end(r),
    ensures
        name_len(x + r) == x.len(),
        name_in(x + r) == x,
        after_name(x + r) == r,
    decreases x.len(),
{
    if x.len() > 0 {
        let y = x.subrange(1, x.len() as int);
        assert((x + r).subrange(1, (x + r).len() as int) =~= y + r);
        lemma_name_len(y, r);
    } else {
        assert(x + r =~= r);
    }
    assert((x + r).subrange(0, x.len() as int) =~= x);
    assert((x + r).subrange(x.len() as int, (x + r).len() as int) =~= r);
}

proof fn lemma_skip_plain(x: Seq<u8>)
    requires
        x.len() > 0 ==> !is_white(x[0]),
    ensures
        skip(x) == x,
{
}

proof fn lemma_skip_space(x: Seq<u8>)
    requires
        x.len() > 0 ==> !is_white(x[0]),
    ensures
        skip(seq![32u8] + x) == x,
{
    assert((seq![32u8] + x).subrange(1, (seq![32u8] + x).len() as int) =~= x);
    lemma_skip_plain(x);
}

/// The scope of `d` binders named after their levels, as the printer names them.
pub open spec fn levels(d: nat) -> Bindings {
    Seq::new(d, |i: int| (name_of(i + 1), None::<Tm>))
}

proof fn lemma_levels_push(d: nat)
    ensures
        levels(d).push((name_of(d + 1int), None::<Tm>)) == levels(d + 1),
{
    assert(levels(d).push((name_of(d + 1int), None::<Tm>)) =~= levels(d + 1));
}

proof fn lemma_resolve_level(d: nat, l: int, k: nat)
    requires
        1 <= l <= d,
        k + d < u64::MAX,
    ensures
        resolve_at(levels(d), name_of(l), k) == (Tm::Var { idx: (k + d - l) as u64 }),
    decreases d,
{
    let sc = levels(d);
    assert(sc.last() == (name_of(d as int), None::<Tm>));
    if l < d {
        lemma_level_name(l);
        lemma_level_name(d as int);
        if name_of(d as int) == name_of(l) {
            lemma_letters_injective(d, l as nat);
        }
        assert(sc.drop_last() =~= levels((d - 1) as nat));
        lemma_resolve_level((d - 1) as nat, l, k + 1);
    }
}

proof fn lemma_read_space(x: Seq<u8>, sc: Bindings)
    ensures
        read(seq![32u8] + x, sc) == read(x, sc),
{
    let y = seq![32u8] + x;
    assert(y.subrange(1, y.len() as int) =~= x);
    assert(skip(y) == skip(x));
    crate::syntax::lemma_skip_len(x);
}

proof fn lemma_read_glyph(g: u8, tail: Seq<u8>, sc: Bindings)
    requires
        binds_one(g) || binds_none(g) || g == 36 || g == 126 || g == 94,
    ensures
        read(seq![g] + tail, sc) == read_after(g, tail, sc),
{
    let c = seq![g] + tail;
    lemma_skip_plain(c);
    assert(c.subrange(1, c.len() as int) =~= tail);
}

/// Whether `t`, printed `d` binders deep, reads back: its variables have
/// binders, the names printed as they are hold no space or newline, and the
/// binder levels stay below `u64::MAX`.
pub open spec fn printable(t: Tm, d: nat) -> bool
    decreases t,
{
    match t {
        Tm::Var { idx } => idx < d && d < u64::MAX,
        Tm::All { typ, bod, .. } => d + 1 < u64::MAX && printable(*typ, d) && printable(*bod, d + 1),
        Tm::Lam { typ, bod, .. } => d + 1 < u64::MAX && printable(*typ, d) && printable(*bod, d + 1),
        Tm::App { fun, arg, .. } => printable(*fun, d) && printable(*arg, d),
        Tm::Univ => true,
        Tm::Sig { fst, snd, .. } => d + 1 < u64::MAX && printable(*fst, d) && printable(*snd, d + 1),
        Tm::Mks { typ, fst, snd, .. } => printable(*typ, d) && printable(*fst, d) && printable(
            *snd,
            d,
        ),
        Tm::Spt { val, ret, bod, .. } => d + 2 < u64::MAX && printable(*val, d) && printable(
            *ret,
            d + 1,
        ) && printable(*bod, d + 2),
        Tm::Idt { typ, ctr, .. } => d + 1 < u64::MAX && printable(*typ, d) && !print_flags(
            ctr,
            d + 1,
        ).contains(false),
        Tm::Ctr { nam, idt } => white_free(nam) && printable(*idt, d),
        Tm::Cas { idt, val, ret, cas } => d + 1 < u64::MAX && printable(*idt, d) && printable(*val, d)
            && printable(*ret, d + 1) && !print_flags(cas, d).contains(false),
        Tm::Dup { val, bod, .. } => d + 1 < u64::MAX && printable(*val, d) && printable(*bod, d + 1),
        Tm::Bxv { val } => printable(*val, d),
        Tm::Bxt { typ } => printable(*typ, d),
        Tm::Ref { nam } => white_free(nam),
    }
}

/// For every entry, whether its name holds no space or newline and its term
/// is `printable`.
pub open spec fn print_flags(s: Arms, d: nat) -> Seq<bool>
    decreases s,
{
    Seq::new(s.len(), |i: int| 0 <= i < s.len() && white_free(s[i].0) && printable(s[i].1, d))
}

/// The term that reading back the text of `t`, printed `d` binders deep,
/// gives: `t` with every binder named after its level and no erasure flag.
pub open spec fn reparsed(t: Tm, d: nat) -> Tm
    decreases t,
{
    let n = name_of(d + 1int);
    match t {
        Tm::Var { .. } => t,
        Tm::All { typ, bod, .. } => Tm::All {
            era: false,
            nam: n,
            typ: Box::new(reparsed(*typ, d)),
            bod: Box::new(reparsed(*bod, d + 1)),
        },
        Tm::Lam { typ, bod, .. } => Tm::Lam {
            era: false,
            nam: n,
            typ: Box::new(reparsed(*typ, d)),
            bod: Box::new(reparsed(*bod, d + 1)),
        },
        Tm::App { fun, arg, .. } => Tm::App {
            era: false,
            fun: Box::new(reparsed(*fun, d)),
            arg: Box::new(reparsed(*arg, d)),
        },
        Tm::Univ => t,
        Tm::Sig { fst, snd, .. } => Tm::Sig {
            era: false,
            nam: n,
            fst: Box::new(reparsed(*fst, d)),
            snd: Box::new(reparsed(*snd, d + 1)),
        },
        Tm::Mks { typ, fst, snd, .. } => Tm::Mks {
            era: false,
            typ: Box::new(reparsed(*typ, d)),
            fst: Box::new(reparsed(*fst, d)),
            snd: Box::new(reparsed(*snd, d)),
        },
        Tm::Spt { val, ret, bod, .. } => Tm::Spt {
            era: false,
            val: Box::new(reparsed(*val, d)),
            ret: Box::new(reparsed(*ret, d + 1)),
            fnm: n,
            snm: name_of(d + 2int),
            bod: Box::new(reparsed(*bod, d + 2)),
        },
        Tm::Idt { typ, ctr, .. } => Tm::Idt {
            nam: n,
            typ: Box::new(reparsed(*typ, d)),
            ctr: reparsed_arms(ctr, d + 1),
        },
        Tm::Ctr { nam, idt } => Tm::Ctr { nam, idt: Box::new(reparsed(*idt, d)) },
        Tm::Cas { idt, val, ret, cas } => Tm::Cas {
            idt: Box::new(reparsed(*idt, d)),
            val: Box::new(reparsed(*val, d)),
            ret: Box::new(reparsed(*ret, d + 1)),
            cas: reparsed_arms(cas, d),
        },
        Tm::Dup { val, bod, .. } => Tm::Dup {
            nam: n,
            val: Box::new(reparsed(*val, d)),
            bod: Box::new(reparsed(*bod, d + 1)),
        },
        Tm::Bxv { val } => Tm::Bxv { val: Box::new(reparsed(*val, d)) },
        Tm::Bxt { typ } => Tm::Bxt { typ: Box::new(reparsed(*typ, d)) },
        Tm::Ref { .. } => t,
    }
}

/// `reparsed` on the term of every entry, names kept.
pub open spec fn reparsed_arms(s: Arms, d: nat) -> Arms
    decreases s,
{
    Seq::new(
        s.len(),
        |i: int|
            if 0 <= i < s.len() {
                (s[i].0, reparsed(s[i].1, d))
            } else {
                s[i]
            },
    )
}

/// `render_arms` read from the front: the first entry, then the others.
proof fn lemma_render_arms_front(s: Arms, d: nat)
    requires
        s.len() > 0,
    ensures
        render_arms(s, 0, d) == spaced(seq![32u8, 124u8] + s[0].0, render(s[0].1, 0, d))
            + render_arms(s.subrange(1, s.len() as int), 0, d),
    decreases s.len(),
{
    let n = s.len();
    let pre = s.subrange(0, n - 1);
    if n == 1 {
        assert(pre =~= Seq::<(Seq<u8>, Tm)>::empty());
        assert(s.subrange(1, 1) =~= Seq::<(Seq<u8>, Tm)>::empty());
        assert(render_arms(pre, 0, d) =~= Seq::<u8>::empty());
    } else {
        lemma_render_arms_front(pre, d);
        let tl = s.subrange(1, n as int);
        assert(tl.subrange(0, tl.len() - 1) =~= pre.subrange(1, pre.len() as int));
        assert(tl[tl.len() - 1] == s[n - 1]);
        assert(pre[0] == s[0]);
        let e0 = spaced(seq![32u8, 124u8] + s[0].0, render(s[0].1, 0, d));
        let el = spaced(seq![32u8, 124u8] + s[n - 1].0, render(s[n - 1].1, 0, d));
        assert(render_arms(s, 0, d) == render_arms(pre, 0, d) + el);
        assert(render_arms(tl, 0, d) == render_arms(pre.subrange(1, pre.len() as int), 0, d) + el);
        assert(e0 + render_arms(pre.subrange(1, pre.len() as int), 0, d) + el =~= e0 + (render_arms(
            pre.subrange(1, pre.len() as int),
            0,
            d,
        ) + el));
    }
}

/// Reading back the text of a printable term, followed by the end of a
/// token, gives the term in `reparsed` form and leaves what followed.
pub proof fn lemma_read_render(t: Tm, d: nat, rest: Seq<u8>)
    requires
        printable(t, d),
        token_end(rest),
    ensures
        render(t, 0, d).len() > 0,
        !is_white(render(t, 0, d)[0]),
        read(render(t, 0, d) + rest, levels(d)) == Some((rest, reparsed(t, d))),
    decreases t, 1int,
{
    match t {
        Tm::Var { idx } => {
            let l = d - idx;
            lemma_level_name(l);
            assert(render(t, 0, d) == name_of(l));
            lemma_name_len(name_of(l), rest);
            let code = name_of(l) + rest;
            lemma_skip_plain(code);
            lemma_resolve_level(d, l, 0);
        },
        Tm::Univ => {
            let code = seq![42u8] + rest;
            lemma_skip_plain(code);
            assert(code.subrange(1, code.len() as int) =~= rest);
        },
        Tm::Ref { nam } => {
            let code = seq![39u8] + nam + rest;
            assert(render(t, 0, d) + rest =~= code);
            lemma_skip_plain(code);
            assert(code.subrange(1, code.len() as int) =~= nam + rest);
            lemma_name_len(nam, rest);
        },
        Tm::Lam { .. } => lemma_read_one(t, d, rest),
        Tm::All { .. } => lemma_read_one(t, d, rest),
        Tm::Sig { .. } => lemma_read_one(t, d, rest),
        Tm::Dup { .. } => lemma_read_one(t, d, rest),
        Tm::Idt { .. } => lemma_read_idt(t, d, rest),
        Tm::Cas { .. } => lemma_read_cas(t, d, rest),
        Tm::Spt { .. } => lemma_read_spt(t, d, rest),
        _ => lemma_read_plain(t, d, rest),
    }
}

/// `lemma_read_render` for the nodes with one binder.
#[verifier::rlimit(100)]
#[verifier::spinoff_prover]
proof fn lemma_read_one(t: Tm, d: nat, rest: Seq<u8>)
    requires
        printable(t, d),
        token_end(rest),
        t is Lam || t is All || t is Sig || t is Dup,
    ensures
        render(t, 0, d).len() > 0,
        !is_white(render(t, 0, d)[0]),
        read(render(t, 0, d) + rest, levels(d)) == Some((rest, reparsed(t, d))),
    decreases t, 0int,
{
    let (g, a, b): (u8, Tm, Tm) = match t {
        Tm::Lam { typ, bod, .. } => (35u8, *typ, *bod),
        Tm::All { typ, bod, .. } => (64u8, *typ, *bod),
        Tm::Sig { fst, snd, .. } => (38u8, *fst, *snd),
        Tm::Dup { val, bod, .. } => (61u8, *val, *bod),
        _ => (0u8, t, t),
    };
    let inner = name_of(d + 1int);
    let ra = render(a, 0, d);
    let rb = render(b, 0, d + 1);
    let x = seq![32u8] + rb + rest;
    lemma_read_render(a, d, x);
    lemma_read_render(b, d + 1, rest);
    lemma_level_name(d + 1int);
    assert(render(t, 0, d) == spaced(spaced(seq![g] + inner, ra), rb));
    let tail = inner + (seq![32u8] + ra + x);
    assert(render(t, 0, d) + rest =~= seq![g] + tail);
    lemma_read_glyph(g, tail, levels(d));
    lemma_name_len(inner, seq![32u8] + ra + x);
    assert(seq![32u8] + ra + x =~= seq![32u8] + (ra + x));
    lemma_read_space(ra + x, levels(d));
    lemma_levels_push(d);
    assert(x =~= seq![32u8] + (rb + rest));
    lemma_read_space(rb + rest, levels(d + 1));
    assert(read_after(g, tail, levels(d)) == read_one(g, tail, levels(d)));
}

/// `lemma_read_render` for the nodes whose parts share the scope.
#[verifier::rlimit(100)]
#[verifier::spinoff_prover]
proof fn lemma_read_plain(t: Tm, d: nat, rest: Seq<u8>)
    requires
        printable(t, d),
        token_end(rest),
        t is App || t is Mks || t is Ctr || t is Bxv || t is Bxt,
    ensures
        render(t, 0, d).len() > 0,
        !is_white(render(t, 0, d)[0]),
        read(render(t, 0, d) + rest, levels(d)) == Some((rest, reparsed(t, d))),
    decreases t, 0int,
{
    let sc = levels(d);
    match t {
        Tm::App { fun, arg, .. } => {
            let rf = render(*fun, 0, d);
            let ra = render(*arg, 0, d);
            let x = seq![32u8] + ra + rest;
            lemma_read_render(*fun, d, x);
            lemma_read_render(*arg, d, rest);
            let tail = rf + x;
            assert(render(t, 0, d) + rest =~= seq![58u8] + tail);
            lemma_read_glyph(58, tail, sc);
            assert(x =~= seq![32u8] + (ra + rest));
            lemma_read_space(ra + rest, sc);
            assert(read_after(58, tail, sc) == read_plain(58, tail, sc));
        },
        Tm::Mks { typ, fst, snd, .. } => {
            let r0 = render(*typ, 0, d);
            let r1 = render(*fst, 0, d);
            let r2 = render(*snd, 0, d);
            let y = seq![32u8] + r2 + rest;
            let x = seq![32u8] + r1 + y;
            lemma_read_render(*typ, d, x);
            lemma_read_render(*fst, d, y);
            lemma_read_render(*snd, d, rest);
            let tail = r0 + x;
            assert(render(t, 0, d) + rest =~= seq![44u8] + tail);
            lemma_read_glyph(44, tail, sc);
            assert(x =~= seq![32u8] + (r1 + y));
            lemma_read_space(r1 + y, sc);
            assert(y =~= seq![32u8] + (r2 + rest));
            lemma_read_space(r2 + rest, sc);
            assert(read_after(44, tail, sc) == read_plain(44, tail, sc));
        },
        Tm::Ctr { nam, idt } => {
            let ri = render(*idt, 0, d);
            let x = seq![32u8] + ri + rest;
            lemma_read_render(*idt, d, rest);
            let tail = nam + x;
            assert(render(t, 0, d) + rest =~= seq![46u8] + tail);
            lemma_read_glyph(46, tail, sc);
            lemma_name_len(nam, x);
            assert(x =~= seq![32u8] + (ri + rest));
            lemma_read_space(ri + rest, sc);
            assert(read_after(46, tail, sc) == read_plain(46, tail, sc));
        },
        Tm::Bxv { val } => {
            let rv = render(*val, 0, d);
            lemma_read_render(*val, d, rest);
            assert(render(t, 0, d) + rest =~= seq![43u8] + (rv + rest));
            lemma_read_glyph(43, rv + rest, sc);
            assert(read_after(43, rv + rest, sc) == read_plain(43, rv + rest, sc));
        },
        Tm::Bxt { typ } => {
            let rv = render(*typ, 0, d);
            lemma_read_render(*typ, d, rest);
            assert(render(t, 0, d) + rest =~= seq![33u8] + (rv + rest));
            lemma_read_glyph(33, rv + rest, sc);
            assert(read_after(33, rv + rest, sc) == read_plain(33, rv + rest, sc));
        },
        _ => {},
    }
}

/// Reading back the text of a list of printable entries and the `;` that
/// ends it gives the entries in `reparsed` form.
#[verifier::rlimit(100)]
#[verifier::spinoff_prover]
proof fn lemma_read_arms(s: Arms, d: nat, rest: Seq<u8>)
    requires
        !print_flags(s, d).contains(false),
        token_end(rest),
    ensures
        render_arms(s, 0, d).len() > 0 ==> render_arms(s, 0, d)[0] == 32,
        arms_from(skip(render_arms(s, 0, d) + seq![32u8, 59u8] + rest), levels(d)) == Some(
            (rest, reparsed_arms(s, d)),
        ),
    decreases s, 2int,
{
    let sc = levels(d);
    if s.len() == 0 {
        assert(render_arms(s, 0, d) =~= Seq::<u8>::empty());
        let code = seq![32u8, 59u8] + rest;
        assert(render_arms(s, 0, d) + seq![32u8, 59u8] + rest =~= seq![32u8] + (seq![59u8] + rest));
        lemma_skip_space(seq![59u8] + rest);
        let c = seq![59u8] + rest;
        assert(c.subrange(1, c.len() as int) =~= rest);
        assert(reparsed_arms(s, d) =~= Seq::<(Seq<u8>, Tm)>::empty());
    } else {
        let tl = s.subrange(1, s.len() as int);
        vstd::seq::axiom_seq_subrange_decreases(s, 1, s.len() as int);
        assert(print_flags(s, d)[0]);
        assert forall|i: int| 0 <= i < tl.len() implies #[trigger] print_flags(tl, d)[i] by {
            assert(print_flags(s, d)[i + 1]);
        }
        lemma_read_arms(tl, d, rest);
        lemma_render_arms_front(s, d);
        let n0 = s[0].0;
        let r0 = render(s[0].1, 0, d);
        let ra = render_arms(tl, 0, d);
        let z = ra + seq![32u8, 59u8] + rest;
        assert(z[0] == 32);
        lemma_read_render(s[0].1, d, z);
        let full = render_arms(s, 0, d) + seq![32u8, 59u8] + rest;
        let c = seq![124u8] + (n0 + (seq![32u8] + r0 + z));
        assert(full =~= seq![32u8] + c);
        lemma_skip_space(c);
        let inner = n0 + (seq![32u8] + r0 + z);
        assert(c.subrange(1, c.len() as int) =~= inner);
        lemma_name_len(n0, seq![32u8] + r0 + z);
        assert(seq![32u8] + r0 + z =~= seq![32u8] + (r0 + z));
        lemma_read_space(r0 + z, sc);
        assert(z =~= seq![32u8] + (seq![59u8] + rest) || ra.len() > 0);
        if ra.len() > 0 {
            assert(z[0] == 32);
        }
        let zz = z.subrange(1, z.len() as int);
        assert(z =~= seq![32u8] + zz);
        assert(skip(z) == skip(zz));
        crate::syntax::lemma_skip_len(zz);
        crate::syntax::lemma_skip_len(z);
        assert(reparsed_arms(s, d) =~= seq![(n0, reparsed(s[0].1, d))] + reparsed_arms(tl, d));
    }
}

/// `lemma_read_render` for an inductive type.
proof fn lemma_read_idt(t: Tm, d: nat, rest: Seq<u8>)
    requires
        printable(t, d),
        token_end(rest),
        t is Idt,
    ensures
        render(t, 0, d).len() > 0,
        !is_white(render(t, 0, d)[0]),
        read(render(t, 0, d) + rest, levels(d)) == Some((rest, reparsed(t, d))),
    decreases t, 0int,
{
    let sc = levels(d);
    match t {
        Tm::Idt { typ, ctr, .. } => {
            let inner = name_of(d + 1int);
            let rt = render(*typ, 0, d);
            let ra = render_arms(ctr, 0, d + 1);
            lemma_read_arms(ctr, d + 1, rest);
            let y = ra + seq![32u8, 59u8] + rest;
            assert(token_end(y));
            lemma_read_render(*typ, d, y);
            lemma_level_name(d + 1int);
            let tail = inner + (seq![32u8] + rt + y);
            assert(render(t, 0, d) + rest =~= seq![36u8] + tail);
            lemma_read_glyph(36, tail, sc);
            lemma_name_len(inner, seq![32u8] + rt + y);
            assert(seq![32u8] + rt + y =~= seq![32u8] + (rt + y));
            lemma_read_space(rt + y, sc);
            lemma_levels_push(d);
            crate::syntax::lemma_skip_len(y);
            assert(read_after(36, tail, sc) == read_idt(tail, sc));
        },
        _ => {},
    }
}

/// `lemma_read_render` for a match.
#[verifier::rlimit(100)]
#[verifier::spinoff_prover]
proof fn lemma_read_cas(t: Tm, d: nat, rest: Seq<u8>)
    requires
        printable(t, d),
        token_end(rest),
        t is Cas,
    ensures
        render(t, 0, d).len() > 0,
        !is_white(render(t, 0, d)[0]),
        read(render(t, 0, d) + rest, levels(d)) == Some((rest, reparsed(t, d))),
    decreases t, 0int,
{
    let sc = levels(d);
    match t {
        Tm::Cas { idt, val, ret, cas } => {
            let inner = name_of(d + 1int);
            let ri = render(*idt, 0, d);
            let rv = render(*val, 0, d);
            let rr = render(*ret, 0, d + 1);
            let ra = render_arms(cas, 0, d);
            lemma_read_arms(cas, d, rest);
            let w = ra + seq![32u8, 59u8] + rest;
            assert(token_end(w));
            lemma_read_render(*ret, d + 1, w);
            lemma_level_name(d + 1int);
            let q = seq![32u8] + inner + seq![32u8] + rr + w;
            lemma_read_render(*val, d, q);
            let p = seq![32u8] + rv + q;
            lemma_read_render(*idt, d, p);
            let tail = ri + p;
            assert(render(t, 0, d) + rest =~= seq![126u8] + tail);
            lemma_read_glyph(126, tail, sc);
            assert(p =~= seq![32u8] + (rv + q));
            lemma_read_space(rv + q, sc);
            let r2a = inner + (seq![32u8] + rr + w);
            assert(q =~= seq![32u8] + r2a);
            lemma_skip_space(r2a);
            lemma_name_len(inner, seq![32u8] + rr + w);
            assert(seq![32u8] + rr + w =~= seq![32u8] + (rr + w));
            lemma_levels_push(d);
            lemma_read_space(rr + w, levels(d + 1));
            crate::syntax::lemma_skip_len(w);
            assert(read_after(126, tail, sc) == read_cas(tail, sc));
        },
        _ => {},
    }
}

/// `lemma_read_render` for a split.
#[verifier::rlimit(100)]
#[verifier::spinoff_prover]
proof fn lemma_read_spt(t: Tm, d: nat, rest: Seq<u8>)
    requires
        printable(t, d),
        token_end(rest),
        t is Spt,
    ensures
        render(t, 0, d).len() > 0,
        !is_white(render(t, 0, d)[0]),
        read(render(t, 0, d) + rest, levels(d)) == Some((rest, reparsed(t, d))),
    decreases t, 0int,
{
    let sc = levels(d);
    match t {
        Tm::Spt { val, ret, bod, .. } => {
            let n1 = name_of(d + 1int);
            let n2 = name_of(d + 2int);
            let rv = render(*val, 0, d);
            let rr = render(*ret, 0, d + 1);
            let rb = render(*bod, 0, d + 2);
            lemma_level_name(d + 1int);
            lemma_level_name(d + 2int);
            lemma_read_render(*bod, d + 2, rest);
            let r5 = seq![32u8] + rb + rest;
            let r4 = n2 + r5;
            let r3b = n1 + (seq![32u8] + r4);
            let q = seq![32u8] + r3b;
            lemma_read_render(*ret, d + 1, q);
            let r1a = n1 + (seq![32u8] + rr + q);
            let r1 = seq![32u8] + r1a;
            lemma_read_render(*val, d, r1);
            let tail = rv + r1;
            assert(render(t, 0, d) + rest =~= seq![94u8] + tail);
            lemma_read_glyph(94, tail, sc);
            lemma_skip_space(r1a);
            lemma_name_len(n1, seq![32u8] + rr + q);
            assert(seq![32u8] + rr + q =~= seq![32u8] + (rr + q));
            lemma_levels_push(d);
            lemma_read_space(rr + q, levels(d + 1));
            lemma_skip_space(r3b);
            lemma_name_len(n1, seq![32u8] + r4);
            lemma_skip_space(r4);
            lemma_name_len(n2, r5);
            lemma_levels_push(d + 1);
            assert(r5 =~= seq![32u8] + (rb + rest));
            lemma_read_space(rb + rest, levels(d + 2));
            assert(render(t, 0, d) == spaced(
                spaced(spaced(spaced(spaced(seq![94u8] + rv, n1), rr), n1), n2),
                rb,
            ));
            assert(read_after(94, tail, sc) == read_spt(tail, sc));
        },
        _ => {},
    }
}

/// The `reparsed` form of a term differs from it only in binder names and
/// erasure flags.
pub proof fn lemma_reparsed_alpha(t: Tm, d: nat)
    ensures
        alpha_eq(reparsed(t, d), t),
    decreases t,
{
    match t {
        Tm::Var { .. } => {},
        Tm::Univ => {},
        Tm::Ref { .. } => {},
        Tm::All { typ, bod, .. } => {
            lemma_reparsed_alpha(*typ, d);
            lemma_reparsed_alpha(*bod, d + 1);
        },
        Tm::Lam { typ, bod, .. } => {
            lemma_reparsed_alpha(*typ, d);
            lemma_reparsed_alpha(*bod, d + 1);
        },
        Tm::App { fun, arg, .. } => {
            lemma_reparsed_alpha(*fun, d);
            lemma_reparsed_alpha(*arg, d);
        },
        Tm::Sig { fst, snd, .. } => {
            lemma_reparsed_alpha(*fst, d);
            lemma_reparsed_alpha(*snd, d + 1);
        },
        Tm::Mks { typ, fst, snd, .. } => {
            lemma_reparsed_alpha(*typ, d);
            lemma_reparsed_alpha(*fst, d);
            lemma_reparsed_alpha(*snd, d);
        },
        Tm::Spt { val, ret, bod, .. } => {
            lemma_reparsed_alpha(*val, d);
            lemma_reparsed_alpha(*ret, d + 1);
            lemma_reparsed_alpha(*bod, d + 2);
        },
        Tm::Idt { typ, ctr, .. } => {
            lemma_reparsed_alpha(*typ, d);
            lemma_reparsed_arms_alpha(ctr, d + 1);
        },
        Tm::Ctr { idt, .. } => {
            lemma_reparsed_alpha(*idt, d);
        },
        Tm::Cas { idt, val, ret, cas } => {
            lemma_reparsed_alpha(*idt, d);
            lemma_reparsed_alpha(*val, d);
            lemma_reparsed_alpha(*ret, d + 1);
            lemma_reparsed_arms_alpha(cas, d);
        },
        Tm::Dup { val, bod, .. } => {
            lemma_reparsed_alpha(*val, d);
            lemma_reparsed_alpha(*bod, d + 1);
        },
        Tm::Bxv { val } => {
            lemma_reparsed_alpha(*val, d);
        },
        Tm::Bxt { typ } => {
            lemma_reparsed_alpha(*typ, d);
        },
    }
}

/// `lemma_reparsed_alpha` for every entry of a list.
pub proof fn lemma_reparsed_arms_alpha(s: Arms, d: nat)
    ensures
        arms_eq(reparsed_arms(s, d), s),
    decreases s,
{
    let r = reparsed_arms(s, d);
    assert forall|i: int| 0 <= i < r.len() implies #[trigger] r[i].0 == s[i].0 && alpha_eq(
        r[i].1,
        s[i].1,
    ) by {
        lemma_reparsed_alpha(s[i].1, d);
    }
}

/// Printing a closed printable term and reading the text back gives the
/// term again, up to binder names and erasure flags, with nothing left over.
/// Together with the contracts of `to_string` (at depth 0) and `from_string`,
/// `from_string(&to_string(&t, 0))` is a term that `equals` `t`.
pub proof fn lemma_round_trip(t: Tm)
    requires
        printable(t, 0),
    ensures
        read(render(t, 0, 0), Seq::empty()) == Some((Seq::<u8>::empty(), reparsed(t, 0))),
        alpha_eq(reparsed(t, 0), t),
{
    lemma_read_render(t, 0, Seq::empty());
    assert(render(t, 0, 0) + Seq::<u8>::empty() =~= render(t, 0, 0));
    assert(levels(0) =~= Seq::<(Seq<u8>, Option<Tm>)>::empty());
    lemma_reparsed_alpha(t, 0);
}

} // verus!
