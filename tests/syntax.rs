use dtkernel::syntax::{from_string, parse_name, parse_term, skip_whites, to_string, var_name};
use dtkernel::term::{equals, Term};

fn b(t: Term) -> Box<Term> {
    Box::new(t)
}

#[test]
fn whites_are_skipped() {
    assert_eq!(skip_whites(b"  \n ab c"), b"ab c");
    assert_eq!(skip_whites(b"ab"), b"ab");
    assert_eq!(skip_whites(b""), b"");
    assert_eq!(skip_whites(b" \n"), b"");
}

#[test]
fn names_end_at_whitespace() {
    assert_eq!(parse_name(b"abc def"), (&b" def"[..], &b"abc"[..]));
    assert_eq!(parse_name(b"abc"), (&b""[..], &b"abc"[..]));
    assert_eq!(parse_name(b" abc"), (&b" abc"[..], &b""[..]));
}

#[test]
fn variable_names_follow_depth() {
    assert_eq!(var_name(1), b"a".to_vec());
    assert_eq!(var_name(26), b"z".to_vec());
    assert_eq!(var_name(27), b"aa".to_vec());
    assert_eq!(var_name(28), b"ba".to_vec());
    assert_eq!(var_name(0), b"?".to_vec());
    assert_eq!(var_name(-2), b"-b".to_vec());
}

#[test]
fn printing_names_binders_by_depth() {
    let t = Term::Lam {
        era: false,
        nam: b"x".to_vec(),
        typ: b(Term::Univ),
        bod: b(Term::Lam {
            era: false,
            nam: b"y".to_vec(),
            typ: b(Term::Var { idx: 0 }),
            bod: b(Term::App { era: false, fun: b(Term::Var { idx: 1 }), arg: b(Term::Var { idx: 0 }) }),
        }),
    };
    assert_eq!(to_string(&t, 0), b"#a * #b a :a b".to_vec());
}

#[test]
fn printing_an_inductive_type() {
    let nat = Term::Idt {
        nam: b"Nat".to_vec(),
        typ: b(Term::Univ),
        ctr: vec![
            (b"zer".to_vec(), Term::Var { idx: 0 }),
            (
                b"suc".to_vec(),
                Term::All { era: false, nam: b"n".to_vec(), typ: b(Term::Var { idx: 0 }), bod: b(Term::Var { idx: 1 }) },
            ),
        ],
    };
    assert_eq!(to_string(&nat, 0), b"$a * |zer a |suc @b a a ;".to_vec());
}

#[test]
fn parsing_resolves_binders() {
    let t = from_string(b"#x * #y x :x y").unwrap();
    let want = Term::Lam {
        era: false,
        nam: b"x".to_vec(),
        typ: b(Term::Univ),
        bod: b(Term::Lam {
            era: false,
            nam: b"y".to_vec(),
            typ: b(Term::Var { idx: 0 }),
            bod: b(Term::App { era: false, fun: b(Term::Var { idx: 1 }), arg: b(Term::Var { idx: 0 }) }),
        }),
    };
    assert!(equals(&t, &want));
}

#[test]
fn printed_terms_parse_back() {
    let text = b"$a * |zer a |suc @b a a ;";
    let t = from_string(text).unwrap();
    assert_eq!(to_string(&t, 0), text.to_vec());
    let text = b"^,&a * * * * a :a a a b b";
    let t = from_string(text).unwrap();
    assert_eq!(to_string(&t, 0), text.to_vec());
}

#[test]
fn definitions_are_inlined() {
    let t = from_string(b"/id #x * x :id *").unwrap();
    let id = Term::Lam { era: false, nam: b"x".to_vec(), typ: b(Term::Univ), bod: b(Term::Var { idx: 0 }) };
    assert!(equals(&t, &Term::App { era: false, fun: b(id), arg: b(Term::Univ) }));
}

#[test]
fn definitions_are_shifted_under_binders() {
    let t = from_string(b"#x * /y x #z * y").unwrap();
    let want = Term::Lam {
        era: false,
        nam: b"x".to_vec(),
        typ: b(Term::Univ),
        bod: b(Term::Lam { era: false, nam: b"z".to_vec(), typ: b(Term::Univ), bod: b(Term::Var { idx: 1 }) }),
    };
    assert!(equals(&t, &want));
}

#[test]
fn unknown_names_become_references() {
    let t = from_string(b":two *").unwrap();
    let want = Term::App { era: false, fun: b(Term::Ref { nam: b"two".to_vec() }), arg: b(Term::Univ) };
    assert!(equals(&t, &want));
}

#[test]
fn truncated_text_is_rejected() {
    assert!(from_string(b"").is_none());
    assert!(from_string(b"   ").is_none());
    assert!(from_string(b"#x *").is_none());
    assert!(from_string(b":").is_none());
}

#[test]
fn smallest_index_has_a_name() {
    let name = var_name(i32::MIN);
    assert_eq!(name[0], b'-');
    assert!(name.len() > 1);
    assert!(name[1..].iter().all(|c| (b'a'..=b'z').contains(c)));
}

#[test]
fn small_terms_parse() {
    let t = from_string(b"#x * x").unwrap();
    let want = Term::Lam { era: false, nam: b"x".to_vec(), typ: b(Term::Univ), bod: b(Term::Var { idx: 0 }) };
    assert!(equals(&t, &want));
    let t = from_string(b"@x * *").unwrap();
    let want = Term::All { era: false, nam: b"x".to_vec(), typ: b(Term::Univ), bod: b(Term::Univ) };
    assert!(equals(&t, &want));
}

#[test]
fn parse_term_leaves_the_rest_and_the_scope() {
    let mut ctx = Vec::new();
    let (rest, t) = parse_term(b"/id #x * x :id * tail", &mut ctx).unwrap();
    assert_eq!(rest, b" tail");
    assert!(ctx.is_empty());
    let id = Term::Lam { era: false, nam: b"x".to_vec(), typ: b(Term::Univ), bod: b(Term::Var { idx: 0 }) };
    assert!(equals(&t, &Term::App { era: false, fun: b(id), arg: b(Term::Univ) }));
}

#[test]
fn printed_references_are_not_captured() {
    let t = Term::Lam { era: false, nam: b"x".to_vec(), typ: b(Term::Univ), bod: b(Term::Ref { nam: b"a".to_vec() }) };
    let text = to_string(&t, 0);
    assert_eq!(text, b"#a * 'a".to_vec());
    assert!(equals(&from_string(&text).unwrap(), &t));
}

#[test]
fn nested_lists_keep_their_entries() {
    let unit = Term::Idt { nam: b"U".to_vec(), typ: b(Term::Univ), ctr: vec![(b"u".to_vec(), Term::Var { idx: 0 })] };
    let t = Term::Cas {
        idt: b(Term::Univ),
        val: b(Term::Univ),
        ret: b(Term::Univ),
        cas: vec![(b"p".to_vec(), unit), (b"q".to_vec(), Term::Univ)],
    };
    let text = to_string(&t, 0);
    assert_eq!(text, b"~* * a * |p $a * |u a ; |q * ;".to_vec());
    assert!(equals(&from_string(&text).unwrap(), &t));
}

#[test]
fn lists_need_their_end() {
    assert!(from_string(b"$a * |zer a").is_none());
    assert!(from_string(b"$a * ;").is_some());
}

#[test]
fn rich_term_round_trips() {
    let nat = Term::Idt {
        nam: b"Nat".to_vec(),
        typ: b(Term::Univ),
        ctr: vec![
            (b"zer".to_vec(), Term::Var { idx: 0 }),
            (b"suc".to_vec(), Term::All { era: true, nam: b"n".to_vec(), typ: b(Term::Var { idx: 0 }), bod: b(Term::Var { idx: 1 }) }),
        ],
    };
    let zer = Term::Ctr { nam: b"zer".to_vec(), idt: b(Term::Ref { nam: b"Nat".to_vec() }) };
    let t = Term::Lam {
        era: true,
        nam: b"n".to_vec(),
        typ: b(nat),
        bod: b(Term::Spt {
            era: false,
            val: b(Term::Var { idx: 0 }),
            ret: b(Term::Bxt { typ: b(Term::Var { idx: 1 }) }),
            fnm: b"p".to_vec(),
            snm: b"q".to_vec(),
            bod: b(Term::Dup { nam: b"d".to_vec(), val: b(Term::Var { idx: 1 }), bod: b(Term::Bxv { val: b(zer) }) }),
        }),
    };
    let text = to_string(&t, 0);
    let back = from_string(&text).unwrap();
    assert!(equals(&back, &t));
    assert_eq!(to_string(&back, 0), text);
}
