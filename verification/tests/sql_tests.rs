use logsearch::expr::Expr;
use logsearch::sql::{
    build_filter, build_func_filter, count_query, parse_i32, search_query, top_query, BindValue,
    Bindings, Date, QueryBuilder,
};
use logsearch::QueryError;

const HEAD: &str = "SELECT msg_id, msg_offset, msg_author, msg_body, msg_timestamp \
FROM messages LEFT JOIN aliases ON alias_secondary = msg_author WHERE ";

#[test]
fn single_phrase_lowering() {
    let q = search_query(Expr::parse("hello").unwrap()).unwrap();
    let expected = format!(
        "{HEAD}to_tsvector('russian', msg_body) @@ (phraseto_tsquery('russian', $1)) \
ORDER BY ts_rank(to_tsvector('russian', msg_body), phraseto_tsquery('russian', $1)) \
DESC LIMIT 1000"
    );
    assert_eq!(q.sql, expected);
    assert_eq!(q.bindings.vals.len(), 1);
    match &q.bindings.vals[0] {
        BindValue::Str(s) => assert_eq!(s, "hello"),
        other => panic!("unexpected binding {other:?}"),
    }
}

#[test]
fn author_and_date_lowering() {
    let q = search_query(Expr::parse("author:alice AND date:2024-01-01").unwrap()).unwrap();
    assert!(q.sql.starts_with(HEAD));
    assert!(q.sql.contains("msg_author = $1"));
    assert!(q.sql.contains("alias_primary"));
    assert!(q.sql.contains("(msg_timestamp::date =$2)"));
    // zero tsqueries: relevance falls back to the timestamp
    assert!(q.sql.ends_with(" ORDER BY msg_timestamp DESC LIMIT 1000"));
    assert_eq!(q.bindings.vals.len(), 2);
    match &q.bindings.vals[1] {
        BindValue::Day(d) => assert_eq!(*d, Date { year: 2024, month: 1, day: 1 }),
        other => panic!("unexpected binding {other:?}"),
    }
}

#[test]
fn quoted_or_lowering_builds_one_tsquery() {
    let q = search_query(Expr::parse("\"foo\" OR \"bar\"").unwrap()).unwrap();
    // children are sorted, so "bar" comes first
    let filter = "to_tsvector('russian', msg_body) @@ \
((phraseto_tsquery('russian', $1)) || (phraseto_tsquery('russian', $2)))";
    assert!(q.sql.contains(filter), "got: {}", q.sql);
    // exactly one tsquery feeds the ranking
    assert_eq!(q.sql.matches("ts_rank").count(), 1);
    match (&q.bindings.vals[0], &q.bindings.vals[1]) {
        (BindValue::Str(a), BindValue::Str(b)) => {
            assert_eq!(a, "bar");
            assert_eq!(b, "foo");
        }
        other => panic!("unexpected bindings {other:?}"),
    }
}

#[test]
fn then_phrase_with_author_lowering() {
    let q = search_query(Expr::parse("(foo THEN bar) AND author:alice").unwrap()).unwrap();
    assert!(
        q.sql.contains("(phraseto_tsquery('russian', $1)) <-> (phraseto_tsquery('russian', $2))"),
        "got: {}",
        q.sql
    );
    assert!(q.sql.contains(") AND ("));
    assert!(q.sql.contains("msg_author = $3"));
}

#[test]
fn random_sort_ascending() {
    let q = search_query(Expr::parse("sort:random order:asc foo").unwrap()).unwrap();
    assert!(q.sql.ends_with(" ORDER BY RANDOM() ASC LIMIT 1000"), "got: {}", q.sql);
}

#[test]
fn time_sort_descending_by_default() {
    let q = search_query(Expr::parse("sort:time foo").unwrap()).unwrap();
    assert!(q.sql.ends_with(" ORDER BY msg_timestamp DESC LIMIT 1000"));
}

#[test]
fn empty_query_emits_where_false() {
    let q = search_query(Expr::parse("").unwrap()).unwrap();
    assert_eq!(
        q.sql,
        format!("{HEAD}FALSE ORDER BY msg_timestamp DESC LIMIT 1000")
    );
    assert!(q.bindings.vals.is_empty());
}

#[test]
fn comparator_prefix_and_bare_date_agree() {
    let a = search_query(Expr::parse("date:=2024-01-01").unwrap()).unwrap();
    let b = search_query(Expr::parse("date:2024-01-01").unwrap()).unwrap();
    assert_eq!(a.sql, b.sql);
}

#[test]
fn date_comparators_render() {
    let q = search_query(Expr::parse("date:>=2024-01-01").unwrap()).unwrap();
    assert!(q.sql.contains("msg_timestamp::date >=$1"), "got: {}", q.sql);
}

#[test]
fn invalid_predicate_arguments_error() {
    assert_eq!(
        search_query(Expr::parse("date:notadate").unwrap()).unwrap_err(),
        QueryError::InvalidDate
    );
    assert_eq!(
        search_query(Expr::parse("time:99x").unwrap()).unwrap_err(),
        QueryError::InvalidTime
    );
    assert_eq!(
        search_query(Expr::parse("datetime:2024-01-01").unwrap()).unwrap_err(),
        QueryError::InvalidDatetime
    );
    assert_eq!(
        search_query(Expr::parse("length:abc").unwrap()).unwrap_err(),
        QueryError::InvalidInteger
    );
    assert_eq!(
        search_query(Expr::parse("nosuch:x").unwrap()).unwrap_err(),
        QueryError::UnknownFunction(String::from("nosuch"))
    );
    assert_eq!(
        search_query(Expr::parse("sort:sideways a").unwrap()).unwrap_err(),
        QueryError::BadSortArg
    );
    assert_eq!(
        search_query(Expr::parse("order:upward a").unwrap()).unwrap_err(),
        QueryError::BadOrderArg
    );
}

#[test]
fn datetime_predicate_renders() {
    let q = search_query(Expr::parse("datetime:'2024-01-01 10:30:00'").unwrap()).unwrap();
    assert!(q.sql.contains("msg_timestamp =$1"), "got: {}", q.sql);
}

#[test]
fn length_predicate_renders() {
    let q = search_query(Expr::parse("length:>100").unwrap()).unwrap();
    assert!(q.sql.contains("char_length(msg_body) >$1"), "got: {}", q.sql);
    match &q.bindings.vals[0] {
        BindValue::Int(v) => assert_eq!(*v, 100),
        other => panic!("unexpected binding {other:?}"),
    }
}

#[test]
fn contains_escapes_wildcards() {
    let q = search_query(Expr::parse(r"contains:'50%_do\\ne'").unwrap()).unwrap();
    assert!(q.sql.contains("msg_body LIKE $1"));
    match &q.bindings.vals[0] {
        BindValue::Str(s) => assert_eq!(s, r"%50\%\_do\\ne%"),
        other => panic!("unexpected binding {other:?}"),
    }
}

#[test]
fn predicate_names_fold_case() {
    let q = search_query(Expr::parse("AUTHOR:alice").unwrap()).unwrap();
    assert!(q.sql.contains("msg_author = $1"));
}

#[test]
fn like_regex_similar_render() {
    let q = search_query(Expr::parse("like:'a%'").unwrap()).unwrap();
    assert!(q.sql.contains("msg_body LIKE $1"));
    let q = search_query(Expr::parse("ilike:'a%'").unwrap()).unwrap();
    assert!(q.sql.contains("msg_body ILIKE $1"));
    let q = search_query(Expr::parse("regex:'^a'").unwrap()).unwrap();
    assert!(q.sql.contains("msg_body ~ $1"));
    let q = search_query(Expr::parse("iregex:'^a'").unwrap()).unwrap();
    assert!(q.sql.contains("msg_body ~* $1"));
    let q = search_query(Expr::parse("similarto:'a|b'").unwrap()).unwrap();
    assert!(q.sql.contains("msg_body SIMILAR TO $1"));
    let q = search_query(Expr::parse("raw:alice").unwrap()).unwrap();
    assert!(q.sql.contains("msg_author = $1"));
    let q = search_query(Expr::parse("channel:'#cc.ru'").unwrap()).unwrap();
    assert!(q.sql.contains("msg_channel = $1"));
}

#[test]
fn every_parameter_has_a_binding() {
    let queries = [
        "hello",
        "author:alice AND date:2024-01-01",
        "\"foo\" OR \"bar\"",
        "(a OR author:b) c",
        "author:x author:y contains:z",
    ];
    for src in queries {
        let q = search_query(Expr::parse(src).unwrap()).unwrap();
        let n = q.bindings.vals.len();
        for k in 1..=n + 3 {
            let param = format!("${k}");
            let used = q.sql.contains(&param);
            if k > n {
                assert!(!used, "{src}: {param} used but only {n} bindings");
            }
        }
    }
}

#[test]
fn count_query_excludes_bots_by_default() {
    let bots = vec![String::from("helper"), String::from("robo")];
    let q = count_query(bots, Expr::parse("hello").unwrap()).unwrap();
    assert!(q.sql.starts_with(
        "SELECT count(*), count(distinct msg_author), \
count(distinct coalesce(alias_primary, msg_author)) FROM messages"
    ));
    assert!(q.sql.contains(" AND msg_author != ALL($2)"), "got: {}", q.sql);
    match &q.bindings.vals[1] {
        BindValue::StrList(l) => assert_eq!(l.len(), 2),
        other => panic!("unexpected binding {other:?}"),
    }
}

#[test]
fn count_query_bots_include() {
    let q = count_query(vec![], Expr::parse("bots:include hello").unwrap()).unwrap();
    assert!(!q.sql.contains("!= ALL"));
}

#[test]
fn count_query_bad_bots_argument() {
    let q = count_query(vec![], Expr::parse("bots:maybe hello").unwrap());
    assert_eq!(q.unwrap_err(), QueryError::BadBotsArg);
}

#[test]
fn top_query_groups_authors() {
    let q = top_query(vec![String::from("b")], Expr::parse("hello").unwrap()).unwrap();
    assert!(q.sql.starts_with(
        "SELECT coalesce(alias_primary, msg_author) as author, count(msg_body) FROM messages"
    ));
    assert!(q
        .sql
        .ends_with("  GROUP BY author ORDER BY count(msg_body) DESC LIMIT 6"));
}

#[test]
fn parse_i32_behaviour() {
    assert_eq!(parse_i32("123"), Some(123));
    assert_eq!(parse_i32("+123"), Some(123));
    assert_eq!(parse_i32("-123"), Some(-123));
    assert_eq!(parse_i32("0007"), Some(7));
    assert_eq!(parse_i32("2147483647"), Some(i32::MAX));
    assert_eq!(parse_i32("2147483648"), None);
    assert_eq!(parse_i32("-2147483648"), Some(i32::MIN));
    assert_eq!(parse_i32("-2147483649"), None);
    assert_eq!(parse_i32(""), None);
    assert_eq!(parse_i32("+"), None);
    assert_eq!(parse_i32("12a"), None);
    assert_eq!(parse_i32(" 1"), None);
}

#[test]
fn empty_renders_true_in_the_function_filter() {
    // `Empty` means "nothing to constrain": it must not exclude rows
    let mut q = QueryBuilder::new();
    let mut b = Bindings::new();
    build_func_filter(&mut q, &mut b, Expr::Empty).unwrap();
    assert_eq!(q.sql, "TRUE");

    let mut q = QueryBuilder::new();
    let mut b = Bindings::new();
    build_func_filter(&mut q, &mut b, Expr::False).unwrap();
    assert_eq!(q.sql, "FALSE");
}

#[test]
fn two_empty_sides_render_true() {
    let mut q = QueryBuilder::new();
    let mut b = Bindings::new();
    let mut tsqueries = Vec::new();
    build_filter(&mut q, &mut b, &mut tsqueries, Expr::And(vec![])).unwrap();
    assert_eq!(q.sql, "TRUE");
}
