use logsearch::expr::Expr;
use logsearch::QueryError;

fn phrase(s: &str) -> Expr {
    Expr::Phrase(String::from(s))
}

fn func(k: &str, v: &str) -> Expr {
    Expr::Func(String::from(k), String::from(v))
}

#[test]
fn empty_input_parses_to_false() {
    assert_eq!(Expr::parse("").unwrap(), Expr::False);
    assert_eq!(Expr::parse("   ").unwrap(), Expr::False);
}

#[test]
fn single_word_is_a_phrase() {
    assert_eq!(Expr::parse("hello").unwrap(), phrase("hello"));
}

#[test]
fn juxtaposition_is_conjunction() {
    assert_eq!(
        Expr::parse("foo bar").unwrap(),
        Expr::And(vec![phrase("foo"), phrase("bar")])
    );
}

#[test]
fn comma_terminates_a_word() {
    assert_eq!(
        Expr::parse("a,b").unwrap(),
        Expr::And(vec![phrase("a"), phrase("b")])
    );
}

#[test]
fn hyphen_stays_inside_a_word() {
    assert_eq!(Expr::parse("2024-01-01").unwrap(), phrase("2024-01-01"));
}

#[test]
fn quoted_strings_and_escapes() {
    assert_eq!(Expr::parse("\"foo bar\"").unwrap(), phrase("foo bar"));
    assert_eq!(Expr::parse("'it''s'").unwrap(), Expr::And(vec![phrase("it"), phrase("s")]));
    assert_eq!(Expr::parse(r#""a\"b""#).unwrap(), phrase("a\"b"));
    assert_eq!(Expr::parse(r#""a\\b""#).unwrap(), phrase("a\\b"));
    assert_eq!(Expr::parse(r#""a\nb""#).unwrap(), phrase("a\\nb"));
}

#[test]
fn unterminated_string_is_malformed() {
    assert_eq!(Expr::parse("\"abc").unwrap_err(), QueryError::Malformed);
}

#[test]
fn keyword_alone_is_malformed() {
    assert_eq!(Expr::parse("AND").unwrap_err(), QueryError::Malformed);
}

#[test]
fn func_with_word_and_string_values() {
    assert_eq!(Expr::parse("author:alice").unwrap(), func("author", "alice"));
    assert_eq!(Expr::parse("author:'a b'").unwrap(), func("author", "a b"));
}

#[test]
fn operators_and_precedence() {
    assert_eq!(
        Expr::parse("a OR b").unwrap(),
        Expr::Or(vec![phrase("a"), phrase("b")])
    );
    assert_eq!(
        Expr::parse("a AND b OR c").unwrap(),
        Expr::And(vec![phrase("a"), Expr::Or(vec![phrase("b"), phrase("c")])])
    );
    assert_eq!(
        Expr::parse("a THEN b AND c").unwrap(),
        Expr::Then(vec![phrase("a"), Expr::And(vec![phrase("b"), phrase("c")])])
    );
    assert_eq!(
        Expr::parse("NOT a").unwrap(),
        Expr::Not(Box::new(phrase("a")))
    );
    assert_eq!(
        Expr::parse("(a OR b) c").unwrap(),
        Expr::And(vec![Expr::Or(vec![phrase("a"), phrase("b")]), phrase("c")])
    );
}

#[test]
fn double_negation_cancels() {
    let e = Expr::parse("NOT NOT x").unwrap();
    assert_eq!(e.to_nnf(), phrase("x"));
}

#[test]
fn de_morgan_pushes_not_to_leaves() {
    let e = Expr::parse("NOT (a OR b)").unwrap();
    assert_eq!(
        e.to_nnf(),
        Expr::And(vec![
            Expr::Not(Box::new(phrase("a"))),
            Expr::Not(Box::new(phrase("b")))
        ])
    );
}

#[test]
fn conjunction_with_negation_collapses_to_false() {
    let e = Expr::parse("x AND NOT x").unwrap();
    assert_eq!(e.normalize().unwrap(), Expr::False);
}

#[test]
fn disjunction_with_negation_collapses_to_true() {
    let e = Expr::parse("x OR NOT x").unwrap();
    assert_eq!(e.normalize().unwrap(), Expr::True);
}

#[test]
fn reduce_drops_true_and_duplicates() {
    let e = Expr::And(vec![phrase("a"), Expr::True, phrase("a"), Expr::Empty]);
    assert_eq!(e.reduce(), Expr::And(vec![phrase("a")]));
}

#[test]
fn reduce_flattens_nested_junctions() {
    let e = Expr::And(vec![Expr::And(vec![phrase("a"), phrase("b")]), phrase("c")]);
    assert_eq!(
        e.reduce(),
        Expr::And(vec![phrase("a"), phrase("b"), phrase("c")])
    );
}

#[test]
fn reduce_or_drops_false() {
    let e = Expr::Or(vec![phrase("a"), Expr::False]);
    assert_eq!(e.reduce(), Expr::Or(vec![phrase("a")]));
}

#[test]
fn validate_rejects_funcs_inside_then() {
    let e = Expr::parse("a THEN author:alice").unwrap();
    assert_eq!(e.validate().unwrap_err(), QueryError::ThenWithFuncs);
}

#[test]
fn validate_rejects_sort_inside_or() {
    let e = Expr::parse("a OR sort:time").unwrap();
    assert_eq!(e.validate().unwrap_err(), QueryError::SortInsideOr);
}

#[test]
fn validate_rejects_deep_control_predicate() {
    let e = Expr::parse("NOT NOT sort:time").unwrap();
    assert_eq!(
        e.validate().unwrap_err(),
        QueryError::ControlNotTopLevel(String::from("sort"))
    );
}

#[test]
fn validate_accepts_top_level_controls() {
    let e = Expr::parse("sort:time order:asc bots:include a").unwrap();
    assert!(e.validate().is_ok());
}

#[test]
fn expansion_distributes_mixed_or() {
    let e = Expr::parse("(a OR author:b) c").unwrap();
    let n = e.normalize().unwrap();
    // (a OR author:b) AND c  =>  (a AND c) OR (author:b AND c)
    assert!(n.is_or());
    if let Expr::Or(children) = &n {
        assert_eq!(children.len(), 2);
        for c in children {
            assert!(c.is_and());
        }
    }
}

#[test]
fn expansion_budget_exhaustion_is_too_complex() {
    let mut q = String::new();
    for i in 0..20 {
        q.push_str(&format!("(a{i} OR author:b{i}) "));
    }
    let e = Expr::parse(&q).unwrap();
    assert_eq!(e.normalize().unwrap_err(), QueryError::TooComplex);
}

#[test]
fn normalize_is_idempotent_on_samples() {
    let samples = [
        "hello",
        "a b c",
        "a OR b",
        "NOT (a OR b)",
        "author:alice AND date:2024-01-01",
        "(a OR author:b) c",
        "x AND NOT x",
    ];
    for q in samples {
        let n1 = Expr::parse(q).unwrap().normalize().unwrap();
        let n2 = n1.duplicate().normalize().unwrap();
        assert_eq!(n1, n2, "normalize not idempotent on {q}");
    }
}

#[test]
fn printer_round_trips() {
    let samples = [
        "hello",
        "foo bar",
        "a OR b",
        "NOT (a OR b)",
        "author:alice AND x",
        "\"quoted phrase\" OR y",
        r#""es\"caped""#,
        "a THEN b",
    ];
    for q in samples {
        let e1 = Expr::parse(q).unwrap();
        let printed = e1.to_query_string();
        let e2 = Expr::parse(&printed)
            .unwrap_or_else(|_| panic!("printed form of {q} did not parse: {printed}"));
        assert_eq!(e1, e2, "round trip failed for {q} via {printed}");
    }
}

#[test]
fn capability_predicates() {
    let e = Expr::parse("author:alice AND x").unwrap();
    assert!(e.has_phrases());
    assert!(e.has_funcs());
    assert!(e.is_and());
    assert!(!e.is_or());
    assert!(e.is_compound());
    assert_eq!(e.get_func("author"), Some("alice"));
    assert_eq!(e.get_func("date"), None);
}

#[test]
fn get_func_first_wins() {
    let e = Expr::parse("sort:time sort:random a").unwrap();
    assert_eq!(e.get_func("sort"), Some("time"));
}

#[test]
fn error_messages_are_exact() {
    assert_eq!(QueryError::Malformed.message(), "Malformed query");
    assert_eq!(QueryError::TooComplex.message(), "query is too complex");
    assert_eq!(
        QueryError::ControlNotTopLevel(String::from("sort")).message(),
        "`sort` function should be at the top level"
    );
    assert_eq!(
        QueryError::UnknownFunction(String::from("nope")).message(),
        "unknown function 'nope'"
    );
    assert_eq!(
        QueryError::ThenWithFuncs.message(),
        "THEN operands cannot contain functions"
    );
    assert_eq!(
        QueryError::SortInsideOr.message(),
        "sorting functions inside OR operands are disallowed"
    );
}

#[test]
fn keywords_match_only_as_bare_identifiers() {
    assert_eq!(
        Expr::parse("foo ANDroid").unwrap(),
        Expr::And(vec![phrase("foo"), phrase("ANDroid")])
    );
    assert_eq!(Expr::parse("NOTx").unwrap(), phrase("NOTx"));
    assert_eq!(
        Expr::parse("a ORb").unwrap(),
        Expr::And(vec![phrase("a"), phrase("ORb")])
    );
    // a non-word character after the keyword is a boundary
    assert_eq!(
        Expr::parse("a AND(b)").unwrap(),
        Expr::And(vec![phrase("a"), phrase("b")])
    );
}

#[test]
fn trailing_unconsumed_input_is_malformed() {
    assert_eq!(Expr::parse("a ) b").unwrap_err(), QueryError::Malformed);
    assert_eq!(Expr::parse(")").unwrap_err(), QueryError::Malformed);
}

#[test]
fn reduce_is_idempotent_on_samples() {
    let samples = [
        "a b a",
        "a OR (b OR c)",
        "NOT a AND NOT a",
        "x AND NOT x",
        "(a AND b) AND c",
    ];
    for q in samples {
        let r1 = Expr::parse(q).unwrap().reduce();
        let r2 = r1.duplicate().reduce();
        assert_eq!(r1, r2, "reduce not idempotent on {q}");
    }
}
