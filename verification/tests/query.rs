use esql::dialect::{Dialect, MySql, Postgres};
use esql::query::make_query;
use esql::{Query, Trusted};

#[derive(Debug, Clone, PartialEq)]
enum P {
    I(i64),
    F(f32),
    S(String),
}

fn q(sql: &'static str, params: Vec<P>) -> Query<P> {
    make_query(Trusted::from(sql), params)
}

#[test]
fn basic_query_parsing() {
    let mut q1 = q(
        "SELECT foo FROM bar WHERE a = ? AND b = ? AND c = \"hello?\"",
        vec![P::I(1), P::I(2)],
    );

    q1.push(q("AND d != ?", vec![P::F(13.37f32)]));

    let (sql, params) = q1.build::<Postgres>().unwrap();
    assert_eq!(params.len(), 3);
    assert!(sql.contains("\"hello?\""));
}

#[test]
fn in_clause() {
    let mut q2: Query<P> = Query::from("SELECT * FROM users");
    q2.push_where(Query::in_(
        "type",
        vec![P::S("admin".to_string()), P::S("moderator".to_string())],
    ));

    let (sql, params) = q2.build::<Postgres>().unwrap();
    assert_eq!(params.len(), 2);
    assert!(sql.contains("WHERE"));
    assert!(sql.contains("IN"));
}

#[test]
fn empty_in_clause() {
    let q: Query<String> = Query::in_("type", Vec::<String>::new());
    let (sql, _) = q.build::<Postgres>().unwrap();
    assert!(sql.contains("1=0"));
}

#[test]
fn one_query_builds_for_both_dialects() {
    let build = || q("SELECT a WHERE b = ? AND c = ?", vec![P::I(1), P::I(2)]);

    let (pg, pg_params) = build().build::<Postgres>().unwrap();
    let (my, my_params) = build().build::<MySql>().unwrap();

    assert_eq!(pg, "SELECT a WHERE b = $1 AND c = $2");
    assert_eq!(my, "SELECT a WHERE b = ? AND c = ?");
    assert_eq!(pg_params.len(), 2);
    assert_eq!(my_params.len(), 2);
}

#[test]
fn postgres_placeholders_count_from_one_across_pushes() {
    let mut q1 = q("SELECT ?", vec![P::I(1)]);
    q1.push(q("AND a = ?", vec![P::I(2)]));
    q1.push(q("AND b = ?", vec![P::I(3)]));

    let (sql, _) = q1.build::<Postgres>().unwrap();
    assert_eq!(sql, "SELECT $1 AND a = $2 AND b = $3");
}

#[test]
fn param_count_mismatch_does_not_build() {
    assert!(q("SELECT ?, ?", vec![P::I(1)]).build::<Postgres>().is_err());
    assert!(q("SELECT ?", vec![P::I(1), P::I(2)]).build::<Postgres>().is_err());
}

#[test]
fn escaped_placeholders_do_not_count_as_params() {
    let (sql, params) = q(
        "SELECT * FROM d WHERE data ?? ? AND id = ?",
        vec![P::S("key".to_string()), P::I(1)],
    )
    .build::<Postgres>()
    .unwrap();

    assert_eq!(sql, "SELECT * FROM d WHERE data ? $1 AND id = $2");
    assert_eq!(params.len(), 2);
}

#[test]
fn owned_sql_keeps_its_text() {
    let sql = format!("SELECT {} WHERE a = ?", "name");
    let (sql, _) = make_query(Trusted::unchecked(&sql), vec![P::I(1)])
        .build::<Postgres>()
        .unwrap();

    assert_eq!(sql, "SELECT name WHERE a = $1");
}

// -----------------------------------------------------------------------------
//                      Composition, on concrete values
// -----------------------------------------------------------------------------

#[test]
fn param_count_error_reports_both_counts() {
    let err = q("SELECT ?, ?", vec![P::I(1)]).build::<MySql>().unwrap_err();
    assert_eq!(err.placeholders, 2);
    assert_eq!(err.params, 1);
}

#[test]
fn params_come_back_in_order() {
    let mut q1 = q("SELECT ?", vec![P::I(1)]);
    q1.push(q("AND ?", vec![P::S("x".to_string())]));
    let (_, params) = q1.build::<MySql>().unwrap();
    assert_eq!(params, vec![P::I(1), P::S("x".to_string())]);
}

#[test]
fn empty_fragment_takes_its_prefix_and_params_with_it() {
    let mut q1: Query<P> = Query::from("SELECT a FROM t");
    q1.push_where(Query::new());
    q1.push_having(q("", vec![P::I(1)]));
    let (sql, params) = q1.build::<Postgres>().unwrap();
    assert_eq!(sql, "SELECT a FROM t");
    assert!(params.is_empty());
}

#[test]
fn push_chains() {
    let mut q1: Query<P> = Query::from("SELECT a");
    q1.push(Query::from("FROM t")).push_where(q("b = ?", vec![P::I(1)]));
    let (sql, _) = q1.build::<Postgres>().unwrap();
    assert_eq!(sql, "SELECT a FROM t WHERE b = $1");
}

#[test]
fn and_or_join_only_non_empty_sides() {
    let cond = Query::new()
        .and(q("a = ?", vec![P::I(1)]))
        .and(q("b = ?", vec![P::I(2)]))
        .or(q("c = ?", vec![P::I(3)]));
    let (sql, params) = cond.build::<Postgres>().unwrap();
    assert_eq!(sql, "a = $1 AND b = $2 OR c = $3");
    assert_eq!(params.len(), 3);
}

#[test]
fn group_wraps_non_empty_queries_only() {
    let g = Query::group(q("a = ? OR b = ?", vec![P::I(1), P::I(2)]));
    assert_eq!(g.build::<MySql>().unwrap().0, "( a = ? OR b = ? )");
    let empty: Query<P> = Query::group(Query::new());
    assert_eq!(empty.build::<MySql>().unwrap().0, "");
}

#[test]
fn pluck_selects_one_column_from_a_subquery() {
    let inner = q("SELECT * FROM t WHERE a = ?", vec![P::I(1)]);
    let (sql, params) = inner.pluck("id").build::<Postgres>().unwrap();
    assert_eq!(sql, "SELECT id FROM ( SELECT * FROM t WHERE a = $1 )");
    assert_eq!(params.len(), 1);
}

#[test]
fn in_list_spells_one_placeholder_per_param() {
    let q1 = Query::in_("id", vec![1i64, 2, 3]);
    assert_eq!(q1.build::<Postgres>().unwrap().0, "id IN ( $1 , $2 , $3 )");
    let q2 = Query::in_("id", vec![7i64]);
    assert_eq!(q2.build::<MySql>().unwrap().0, "id IN ( ? )");
}

#[test]
fn postgres_placeholders_spell_multi_digit_positions() {
    let mut out = String::from("x");
    Postgres::placeholder(1203, &mut out);
    assert_eq!(out, "x$1203");
    let mut out = String::new();
    MySql::placeholder(1203, &mut out);
    assert_eq!(out, "?");
}

#[test]
fn comments_do_not_swallow_the_statement() {
    let (sql, _) = q("SELECT a -- the first column\nFROM t WHERE b = ?", vec![P::I(1)])
        .build::<Postgres>()
        .unwrap();
    assert_eq!(sql, "SELECT a FROM t WHERE b = $1");
}

#[test]
fn trusted_keeps_its_text() {
    let t = Trusted::unchecked("SELECT 1");
    assert_eq!(t.as_str(), "SELECT 1");
    let t: Trusted = "SELECT 2".into();
    assert_eq!(t.as_str(), "SELECT 2");
}

#[test]
fn lock_statements_differ_per_dialect() {
    assert_eq!(<Postgres as Dialect>::LOCK, "SELECT pg_advisory_lock(4359270142058781)");
    assert_eq!(<MySql as Dialect>::UNLOCK, "SELECT RELEASE_LOCK('esql_migrations')");
}

#[test]
fn pushed_query_renders_after_the_first_with_numbers_carried_on() {
    let mut a = q("SELECT x FROM t WHERE a = ? AND b = ?", vec![P::I(1), P::I(2)]);
    let (first, _) = q("SELECT x FROM t WHERE a = ? AND b = ?", vec![P::I(1), P::I(2)])
        .build::<Postgres>()
        .unwrap();
    a.push(q("AND c = ?", vec![P::I(3)]));
    let (sql, params) = a.build::<Postgres>().unwrap();
    assert_eq!(sql, format!("{first} AND c = $3"));
    assert_eq!(params, vec![P::I(1), P::I(2), P::I(3)]);
}
