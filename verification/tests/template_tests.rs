use dotloy::template::parse::{parse_template_inner, tokenize, Error as ParseError, Token};
use dotloy::template::{define_variables, Context, Error, Templated, Variable};

#[test]
fn parse_with_equals_works() {
    let s = "SOME_VAR={{ t1 }}\nexport THING=$SOME_VAR";
    let tkns = tokenize(s).unwrap();
    assert_eq!(
        tkns.as_slice(),
        &[
            Token::Str("SOME_VAR=".to_owned()),
            Token::Variable(Variable::single("t1".to_string())),
            Token::Str("\nexport THING=$SOME_VAR".to_owned())
        ]
    )
}

#[test]
fn parse_template_inner_parses_the_start_of_a_template() {
    let s = "some.txt }}h1";
    let cs = s.chars().collect::<Vec<_>>();
    let (var, offset) = parse_template_inner(&cs).unwrap().unwrap();
    assert_eq!(offset, s.len() - 2);
    assert_eq!(&var, &["some", "txt"]);
}

#[test]
fn parsing_template_extracts_engine_samples() {
    let parsed = tokenize("{{ var }}etc").unwrap();
    assert_eq!(
        parsed.as_slice(),
        &[
            Token::Variable(Variable::new(vec!["var".to_owned()])),
            Token::Str("etc".to_owned())
        ]
    );
}

#[test]
fn variable_can_used_as_namespaces() {
    let var = Variable::single("test".to_owned());
    let t1 = var.clone().join(Variable::single("t1".to_owned()));
    assert_eq!(t1, Variable::new(vec!["test".to_owned(), "t1".to_owned()]));
}

#[test]
fn context_render_replaces_input_vars() {
    let ctx = Context::default()
        .with_define(Variable::single("tvar".to_owned()), "expanded".to_owned());
    let out = ctx.render("{{ tvar }}/smth").unwrap();
    assert_eq!(out, "expanded/smth");
}

#[test]
fn tokenizing_empty_input_yields_no_tokens() {
    assert_eq!(tokenize("").unwrap(), Vec::<Token>::new());
}

#[test]
fn tokenizing_plain_text_yields_one_literal() {
    assert_eq!(tokenize("abc").unwrap(), vec![Token::Str("abc".to_owned())]);
}

#[test]
fn tokenizing_adjacent_references_works() {
    assert_eq!(
        tokenize("{{a}}{{b}}").unwrap(),
        vec![
            Token::Variable(Variable::single("a".to_owned())),
            Token::Variable(Variable::single("b".to_owned())),
        ]
    );
}

#[test]
fn tokenizing_reference_at_start_and_end_works() {
    assert_eq!(
        tokenize("x{{ v }}").unwrap(),
        vec![
            Token::Str("x".to_owned()),
            Token::Variable(Variable::single("v".to_owned())),
        ]
    );
    assert_eq!(
        tokenize("{{ v }}x").unwrap(),
        vec![
            Token::Variable(Variable::single("v".to_owned())),
            Token::Str("x".to_owned()),
        ]
    );
}

#[test]
fn unterminated_reference_is_literal_text() {
    assert_eq!(tokenize("{{a").unwrap(), vec![Token::Str("{{a".to_owned())]);
}

#[test]
fn trailing_empty_segment_fails_at_its_offset() {
    let err = tokenize("{{ a. }}").unwrap_err();
    assert_eq!(err, ParseError::EmptyVariableSegment { offset: 4 });
}

#[test]
fn leading_empty_segment_fails_at_its_offset() {
    let err = tokenize("{{ .a }}").unwrap_err();
    assert_eq!(err, ParseError::EmptyVariableSegment { offset: 1 });
}

#[test]
fn empty_braces_fail_at_offset_zero() {
    let err = tokenize("{{}}").unwrap_err();
    assert_eq!(err, ParseError::EmptyVariableSegment { offset: 0 });
}

#[test]
fn rendering_missing_variable_names_it() {
    let ctx = Context::new();
    match ctx.render("before {{ ns.missing }} after") {
        Err(Error::UnmatchedVariable { var }) => {
            assert_eq!(var, Variable::from_str("ns.missing"));
        }
        other => panic!("expected an unresolved-variable error, got {:?}", other),
    }
}

#[test]
fn rendering_concatenates_in_order() {
    let ctx = Context::new()
        .with_define(Variable::single("a".to_owned()), "1".to_owned())
        .with_define(Variable::single("b".to_owned()), "2".to_owned());
    assert_eq!(ctx.render("{{a}}-{{b}}-{{a}}").unwrap(), "1-2-1");
}

#[test]
fn later_definition_overrides_earlier_one() {
    let ctx = Context::new()
        .with_define(Variable::single("v".to_owned()), "old".to_owned())
        .with_define(Variable::single("v".to_owned()), "new".to_owned());
    assert_eq!(ctx.render("{{ v }}").unwrap(), "new");
}

#[test]
fn append_prefers_the_appended_context() {
    let mut base = Context::new()
        .with_define(Variable::single("v".to_owned()), "base".to_owned())
        .with_define(Variable::single("w".to_owned()), "kept".to_owned());
    let other = Context::new().with_define(Variable::single("v".to_owned()), "other".to_owned());
    base.append(other);
    assert_eq!(base.render("{{v}} {{w}}").unwrap(), "other kept");
}

#[test]
fn define_variables_lets_later_definitions_reference_earlier_ones() {
    let mut ctx = Context::new().with_define(Variable::single("home".to_owned()), "/h".to_owned());
    let vars = vec![
        ("t1".to_owned(), Templated::new("{{ home }}/a".to_owned())),
        ("t2".to_owned(), Templated::new("{{ target.t1 }}/b".to_owned())),
    ];
    define_variables(&mut ctx, &Variable::single("target".to_owned()), &vars).unwrap();
    assert_eq!(ctx.render("{{ target.t2 }}").unwrap(), "/h/a/b");
}

#[test]
fn define_variables_reports_the_failing_value() {
    let mut ctx = Context::new();
    let vars = vec![("t1".to_owned(), Templated::new("{{ absent }}".to_owned()))];
    match define_variables(&mut ctx, &Variable::single("target".to_owned()), &vars) {
        Err(Error::UnmatchedVariable { var }) => {
            assert_eq!(var, Variable::single("absent".to_owned()));
        }
        other => panic!("expected an unresolved-variable error, got {:?}", other),
    }
}

#[test]
fn templated_renders_through_the_context() {
    let ctx = Context::new().with_define(Variable::single("v".to_owned()), "val".to_owned());
    let t = Templated::new("{{ v }}!".to_owned());
    assert_eq!(t.render(&ctx).unwrap(), "val!");
}

#[test]
fn variable_with_child_extends_the_name() {
    let v = Variable::single("a".to_owned()).with_child("b");
    assert_eq!(v, Variable::from_str("a.b"));
    assert_eq!(v.to_dotted(), "a.b");
}

#[test]
fn error_descriptions_name_the_problem() {
    let e = Error::UnmatchedVariable { var: Variable::from_str("x.y") };
    assert_eq!(e.describe(), "unknown variable: x.y");
    let p = Error::Parse(ParseError::EmptyVariableSegment { offset: 3 });
    assert_eq!(p.describe(), "variable segment is empty");
}
