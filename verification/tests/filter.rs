use std::str::FromStr;

use partiql::parser::ParseError;
use partiql::planner::restrict;
use partiql::pqlir_parser;
use partiql::sql::Expr;
use partiql::sql::Selector;
use partiql::sql::WhereCond;
use partiql::value::PqlValue;

#[test]
fn boolean() -> Result<(), ParseError> {
    let value = PqlValue::from_str(
        "
    <<true, false, null>>
   ",
    )?;

    let res = value.restrict(&Selector::default(), &None);
    assert_eq!(res, Some(PqlValue::from_str(r#"<<true>>"#)?));
    Ok(())
}

#[test]
fn missing() -> Result<(), ParseError> {
    let value = PqlValue::from_str(
        "
{
    'top': <<
        {'a': 1, 'b': true, 'c': 'alpha'},
        {'a': 2, 'b': null, 'c': 'beta'},
        {'a': 3, 'c': 'gamma'}
    >>
}
   ",
    )?;
    let res = value.restrict(&Selector::from("top.b"), &None);
    let expected = pqlir_parser::pql_value(
        "
{
    'top': <<
        {'a': 1, 'b': true, 'c': 'alpha'}
    >>
}
   ",
    )?;
    assert_eq!(res, Some(expected));

    Ok(())
}

#[test]
fn pattern_string() -> Result<(), ParseError> {
    let value = PqlValue::from_str(
        "
{
    'hr': {
        'employeesNest': <<
            {
            'id': 3,
            'name': 'Bob Smith',
            'title': null,
            'projects': [ { 'name': 'AWS Redshift Spectrum querying' },
                            { 'name': 'AWS Redshift security' },
                            { 'name': 'AWS Aurora security' }
                        ]
            },
            {
                'id': 4,
                'name': 'Susan Smith',
                'title': 'Dev Mgr',
                'projects': []
            },
            {
                'id': 6,
                'name': 'Jane Smith',
                'title': 'Software Eng 2',
                'projects': [ { 'name': 'AWS Redshift security' } ]
            }
        >>
    }
}
   ",
    )?;
    let selector = Selector::from("hr.employeesNest.projects.name");
    let cond = WhereCond::Like {
        expr: Expr::default(),
        right: "%security%".to_owned(),
    };
    let res = value.restrict(&selector, &Some(cond));
    let expected = pqlir_parser::pql_value(
        "
{
    'hr': {
        'employeesNest': <<
            {
                'id': 3,
                'name': 'Bob Smith',
                'title': null,
                'projects': [
                    { 'name': 'AWS Redshift security' },
                    { 'name': 'AWS Aurora security' }
                ]
            },
            {
                'id': 6,
                'name': 'Jane Smith',
                'title': 'Software Eng 2',
                'projects': [ { 'name': 'AWS Redshift security' } ]
            }
        >>
    }
}
   ",
    )?;
    assert_eq!(res, Some(expected));

    Ok(())
}

#[test]
fn filter_boolean() -> Result<(), ParseError> {
    let data = pqlir_parser::pql_model(
        "
    <<true, false, null>>
   ",
    )?;

    let res = restrict(Some(data), &Selector::default(), &None);
    assert_eq!(res, Some(PqlValue::Bag(vec![PqlValue::Boolean(true)])));
    Ok(())
}

#[test]
fn filter_missing() -> Result<(), ParseError> {
    let data = pqlir_parser::pql_model(
        "
{
    'top': <<
        {'a': 1, 'b': true, 'c': 'alpha'},
        {'a': 2, 'b': null, 'c': 'beta'},
        {'a': 3, 'c': 'gamma'}
    >>
}
   ",
    )?;
    let res = restrict(Some(data), &Selector::from("top.b"), &None);
    let expected = pqlir_parser::pql_model(
        "
{
    'top': <<
        {'a': 1, 'b': true, 'c': 'alpha'}
    >>
}
   ",
    )?;
    assert_eq!(res, Some(expected));

    Ok(())
}
