use std::str::FromStr;

use partiql::engine;
use partiql::engine::EngineError;
use partiql::parser::ParseError;
use partiql::planner::LogicalPlan;
use partiql::sql::arith::EvalError;
use partiql::sql::Env;
use partiql::sql::Sql;
use partiql::value::PqlValue;

const HR: &str = "
{
    'hr': {
        'employeesNest': <<
            {
            'id': 3,
            'name': 'Bob Smith',
            'title': null,
            'projects': [ { 'name': 'AWS Redshift Spectrum querying' },
                            { 'name': 'AWS Redshift security' },
                            { 'name': 'AWS Aurora security' }
                        ]
            },
            {
                'id': 4,
                'name': 'Susan Smith',
                'title': 'Dev Mgr',
                'projects': []
            },
            {
                'id': 6,
                'name': 'Jane Smith',
                'title': 'Software Eng 2',
                'projects': [ { 'name': 'AWS Redshift security' } ]
            }
        >>
    }
}
";

fn query(data: &str, sql: &str) -> PqlValue {
    let data = PqlValue::from_str(data).unwrap();
    engine::query_evaluate(data, sql).unwrap()
}

fn value(text: &str) -> PqlValue {
    PqlValue::from_str(text).unwrap()
}

#[test]
fn test_rename() -> Result<(), ParseError> {
    let sql = Sql::from_str(
        r#"
SELECT e.id,
       e.name AS employeeName,
       e.title AS title
FROM
    {
        'employees': <<
            { 'id': 3, 'name': 'Bob Smith',   'title': null },
            { 'id': 4, 'name': 'Susan Smith', 'title': 'Dev Mgr' },
            { 'id': 6, 'name': 'Jane Smith',  'title': 'Software Eng 2'}
        >>
    } AS hr,
    hr.employees e
        "#,
    )?;

    let plan = LogicalPlan::from(sql);
    let mut env = Env::default();
    let res = plan.execute(&mut env).unwrap();

    assert_eq!(
        res,
        PqlValue::from_str(
            r#"
        <<
            { 'id': 3, 'employeeName': 'Bob Smith',   'title': null },
            { 'id': 4, 'employeeName': 'Susan Smith', 'title': 'Dev Mgr' },
            { 'id': 6, 'employeeName': 'Jane Smith',  'title': 'Software Eng 2'}
        >>
            "#
        )?
    );

    Ok(())
}

#[test]
fn rename_over_data() {
    let data = "{ 'hr': { 'employees': <<
            { 'id': 3, 'name': 'Bob Smith',   'title': null },
            { 'id': 4, 'name': 'Susan Smith', 'title': 'Dev Mgr' },
            { 'id': 6, 'name': 'Jane Smith',  'title': 'Software Eng 2'}
        >> } }";
    let res = query(
        data,
        "SELECT e.id, e.name AS employeeName, e.title AS title FROM hr.employees e",
    );
    assert_eq!(
        res,
        value(
            "<<
            { 'id': 3, 'employeeName': 'Bob Smith',   'title': null },
            { 'id': 4, 'employeeName': 'Susan Smith', 'title': 'Dev Mgr' },
            { 'id': 6, 'employeeName': 'Jane Smith',  'title': 'Software Eng 2'}
        >>"
        )
    );
}

#[test]
fn unnest_gives_one_row_for_each_pair() {
    let res = query(
        HR,
        "SELECT e.name AS employeeName, p.name AS projectName
         FROM hr.employeesNest AS e, e.projects AS p",
    );
    assert_eq!(
        res,
        value(
            "<<
            { 'employeeName': 'Bob Smith', 'projectName': 'AWS Redshift Spectrum querying' },
            { 'employeeName': 'Bob Smith', 'projectName': 'AWS Redshift security' },
            { 'employeeName': 'Bob Smith', 'projectName': 'AWS Aurora security' },
            { 'employeeName': 'Jane Smith', 'projectName': 'AWS Redshift security' }
        >>"
        )
    );
}

#[test]
fn left_join_keeps_the_row_without_a_match() {
    let res = query(
        HR,
        "SELECT e.name AS employeeName, p.name AS projectName
         FROM hr.employeesNest AS e LEFT JOIN e.projects AS p",
    );
    assert_eq!(
        res,
        value(
            "<<
            { 'employeeName': 'Bob Smith', 'projectName': 'AWS Redshift Spectrum querying' },
            { 'employeeName': 'Bob Smith', 'projectName': 'AWS Redshift security' },
            { 'employeeName': 'Bob Smith', 'projectName': 'AWS Aurora security' },
            { 'employeeName': 'Susan Smith' },
            { 'employeeName': 'Jane Smith', 'projectName': 'AWS Redshift security' }
        >>"
        )
    );
}

#[test]
fn like_filter_keeps_the_ancestors() {
    let res = query(
        HR,
        "SELECT e.name AS employeeName, p.name AS projectName
         FROM hr.employeesNest AS e, e.projects AS p
         WHERE p.name LIKE '%security%'",
    );
    assert_eq!(
        res,
        value(
            "<<
            { 'employeeName': 'Bob Smith', 'projectName': 'AWS Redshift security' },
            { 'employeeName': 'Bob Smith', 'projectName': 'AWS Aurora security' },
            { 'employeeName': 'Jane Smith', 'projectName': 'AWS Redshift security' }
        >>"
        )
    );
}

#[test]
fn equality_filter() {
    let res = query(
        HR,
        "SELECT e.id, e.name FROM hr.employeesNest e WHERE e.title = 'Dev Mgr'",
    );
    assert_eq!(res, value("<< { 'id': 4, 'name': 'Susan Smith' } >>"));
    let res = query(HR, "SELECT e.name FROM hr.employeesNest e WHERE e.id = 6");
    assert_eq!(res, value("<< { 'name': 'Jane Smith' } >>"));
}

#[test]
fn a_filter_that_leaves_nothing_gives_the_empty_bag() {
    let res = query(
        HR,
        "SELECT e.id FROM hr.employeesNest e WHERE e.title = 'Nobody'",
    );
    assert_eq!(res, value("<<>>"));
}

#[test]
fn a_missing_field_is_left_out_of_the_row() {
    let data = "{ 'employees': [
        { 'id': 3, 'name': 'Bob Smith' },
        { 'id': 4, 'name': 'Susan Smith', 'title': 'Dev Mgr' },
        { 'id': 6, 'name': 'Jane Smith', 'title': 'Software Eng 2'}
    ] }";
    let res = query(data, "SELECT id, name, title FROM employees");
    assert_eq!(
        res,
        value(
            "<<
        { 'id': 3, 'name': 'Bob Smith' },
        { 'id': 4, 'name': 'Susan Smith', 'title': 'Dev Mgr' },
        { 'id': 6, 'name': 'Jane Smith', 'title': 'Software Eng 2'}
    >>"
        )
    );
}

#[test]
fn star_gives_the_rows_themselves() {
    let data = "{ 'v': << { 'a': 1 }, { 'a': 2, 'b': 'x' } >> }";
    assert_eq!(
        query(data, "SELECT * FROM v AS x"),
        value("<< { 'a': 1 }, { 'a': 2, 'b': 'x' } >>")
    );
    assert_eq!(
        query("{ 'v': 7 }", "SELECT * FROM v AS x"),
        value("<< 7 >>")
    );
}

#[test]
fn order_by_and_limit() {
    let data = "{ 't': << {'k': 3, 'n': 'c'}, {'k': 1, 'n': 'a'}, {'n': 'z'}, {'k': 2, 'n': 'b'}, {'k': 1, 'n': 'd'} >> }";
    assert_eq!(
        query(data, "SELECT t.k, t.n FROM t ORDER BY k"),
        value("<< {'k': 1, 'n': 'a'}, {'k': 1, 'n': 'd'}, {'k': 2, 'n': 'b'}, {'k': 3, 'n': 'c'}, {'n': 'z'} >>")
    );
    assert_eq!(
        query(data, "SELECT t.k, t.n FROM t ORDER BY k DESC"),
        value("<< {'k': 3, 'n': 'c'}, {'k': 2, 'n': 'b'}, {'k': 1, 'n': 'a'}, {'k': 1, 'n': 'd'}, {'n': 'z'} >>")
    );
    assert_eq!(
        query(data, "SELECT t.n FROM t ORDER BY n DESC LIMIT 2 OFFSET 1"),
        value("<< {'n': 'd'}, {'n': 'c'} >>")
    );
    assert_eq!(
        query(data, "SELECT t.n FROM t LIMIT 2"),
        value("<< {'n': 'c'}, {'n': 'a'} >>")
    );
    assert_eq!(
        query(data, "SELECT t.n FROM t LIMIT 3 OFFSET 4"),
        value("<< {'n': 'd'} >>")
    );
    assert_eq!(
        query(data, "SELECT t.n FROM t LIMIT 3 OFFSET 9"),
        value("<<>>")
    );
}

#[test]
fn arithmetic_in_the_projection() {
    let data = "{ 't': << {'a': 1, 'b': 2}, {'a': 3, 'b': 0}, {'a': 5} >> }";
    assert_eq!(
        query(data, "SELECT t.a + 1 AS s, t.a / t.b AS q FROM t"),
        value("<< {'s': 2, 'q': 1/2}, {'s': 4}, {'s': 6} >>")
    );
    assert_eq!(
        query(data, "SELECT 7 % 4 AS r, 2 ^ 10 AS p, 2 ^ -2 AS i, 1.5 * 4 AS m, 1 - 2.25 AS d"),
        value("<< {'r': 3, 'p': 1024, 'i': 0.25, 'm': 6, 'd': -1.25} >>")
    );
    assert_eq!(
        query(data, "SELECT COUNT(t.a) AS n, COUNT(t.b) AS m FROM t"),
        value("<< {'n': 3, 'm': 2} >>")
    );
}

#[test]
fn a_type_error_is_reported() {
    let data = PqlValue::from_str("{ 't': << {'a': 'x'} >> }").unwrap();
    assert_eq!(
        engine::query_evaluate(data, "SELECT t.a + 1 AS s FROM t"),
        Err(EngineError::Eval(EvalError::TypeError))
    );
}

#[test]
fn an_unresolved_alias_is_reported() {
    let data = PqlValue::from_str("{ 't': 1 }").unwrap();
    assert_eq!(
        engine::query_evaluate(data, "SELECT x.a FROM nowhere.t AS x"),
        Err(EngineError::Eval(EvalError::UnresolvedAlias))
    );
}

#[test]
fn a_parse_error_carries_line_and_column() {
    let data = PqlValue::from_str("{ 't': 1 }").unwrap();
    assert_eq!(
        engine::query_evaluate(data, "SELECT a\nFROM t\nWHERE a LIKE 3"),
        Err(EngineError::Parse(ParseError { line: 3, column: 14 }))
    );
    assert_eq!(
        PqlValue::from_str("{ 'a': [1, 2 }"),
        Err(ParseError { line: 1, column: 14 })
    );
}

#[test]
fn texts_in_texts_out() {
    assert_eq!(
        engine::evaluate(
            "SELECT e.name AS n FROM e WHERE e.name LIKE 'B_b%'",
            "{ 'e': << {'name': 'Bob Smith'}, {'name': 'Barb'}, {'name': 'Bab'} >> }",
            "pql",
            "partiql"
        ),
        Ok("<<{'n': 'Bob Smith'}, {'n': 'Bab'}>>".to_string())
    );
    assert_eq!(
        engine::evaluate("SELECT a", "{}", "json", "pql"),
        Err(EngineError::Format)
    );
    assert_eq!(engine::loads("1", "yaml"), Err(EngineError::Format));
    assert_eq!(
        engine::dumps(PqlValue::Null, "xml"),
        Err(EngineError::Format)
    );
}

#[test]
fn dumps_then_loads_gives_the_value_back() {
    let v = value(
        "{ 'a': [1, -2.5, 1/3, 'it''s', true, false, null, missing],
           'b': << {}, [], <<>>, { 'k': { 'deep': 'x' } } >>, 'c d': '' }",
    );
    let text = engine::dumps(v.clone(), "pql").unwrap();
    assert_eq!(
        text,
        "{'a': [1, -5/2, 1/3, 'it''s', true, false, null, missing], 'b': <<{}, [], <<>>, {'k': {'deep': 'x'}}>>, 'c d': ''}"
    );
    assert_eq!(engine::loads(&text, "pql"), Ok(v));
}

#[test]
fn a_subquery_is_run_for_each_row() {
    let res = query(
        HR,
        "SELECT e.name AS n, (SELECT p.name AS project FROM e.projects AS p) AS has
         FROM hr.employeesNest AS e",
    );
    assert_eq!(
        res,
        value(
            "<<
            { 'n': 'Bob Smith', 'has': { 'project': 'AWS Redshift Spectrum querying' } },
            { 'n': 'Bob Smith', 'has': { 'project': 'AWS Redshift security' } },
            { 'n': 'Bob Smith', 'has': { 'project': 'AWS Aurora security' } },
            { 'n': 'Susan Smith' },
            { 'n': 'Jane Smith', 'has': { 'project': 'AWS Redshift security' } }
        >>"
        )
    );
}

#[test]
fn a_subquery_without_an_alias_in_scope_is_run_once() {
    let res = query(
        "{ 't': << {'a': 1}, {'a': 2} >> }",
        "SELECT (SELECT t.a FROM t WHERE t.a = 2) AS found",
    );
    assert_eq!(res, value("<< { 'found': { 'a': 2 } } >>"));
}

#[test]
fn an_error_in_a_subquery_is_reported() {
    let data = PqlValue::from_str(HR).unwrap();
    assert_eq!(
        engine::query_evaluate(
            data,
            "SELECT (SELECT x.a FROM nowhere.t AS x) AS s FROM hr.employeesNest AS e"
        ),
        Err(EngineError::Eval(EvalError::UnresolvedAlias))
    );
}
