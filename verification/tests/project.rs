use std::str::FromStr;

use partiql::parser::ParseError;
use partiql::planner::LogicalPlan;
use partiql::planner::Records;
use partiql::planner::Rows;
use partiql::sql::Env;
use partiql::sql::Sql;
use partiql::value::ObjectMap;
use partiql::value::PqlValue;

#[test]
fn test_convert_coloumnar_to_rowwise() -> Result<(), ParseError> {
    let form0 = PqlValue::from_str(
        r#"
{
  "projectName": [
    [
      "AWS Redshift security",
      "AWS Aurora security"
    ],
    [
      "AWS Redshift security"
    ]
  ],
  "employeeName": [
    "Bob Smith",
    "Jane Smith"
  ]
}
"#,
    )?;
    let form1 = PqlValue::from_str(
        r#"
[
  {
    "projectName": [
      [
        "AWS Redshift security",
        "AWS Aurora security"
      ],
      [
        "AWS Redshift security"
      ]
    ]
  },
  {
    "employeeName": [
      "Bob Smith",
      "Jane Smith"
    ]
  }
]
"#,
    )?;
    let form2 = PqlValue::from_str(
        r#"
[
  {
    "projectName": [
      "AWS Redshift security",
      "AWS Aurora security"
    ],
    "employeeName": [
      "Bob Smith"
    ]
  },
  {
    "projectName": [
      "AWS Redshift security"
    ],
    "employeeName": [
      "Jane Smith"
    ]
  }
]
"#,
    )?;
    let form3 = PqlValue::from_str(
        r#"
[
  {
    "projectName": "AWS Redshift security",
    "employeeName": "Bob Smith"
  },
  {
    "projectName": "AWS Aurora security",
    "employeeName": "Bob Smith"
  },
  {
    "projectName": "AWS Redshift security",
    "employeeName": "Jane Smith"
  }
]
"#,
    )?;

    let rows = Rows::from(form0.to_owned());
    assert_eq!(PqlValue::from(rows.to_owned()), form1);

    let records = Records::from(rows);
    assert_eq!(PqlValue::from(records.to_owned()), form2);

    let list = records.into_list();
    assert_eq!(PqlValue::from(list.to_owned()), form3);

    Ok(())
}

#[test]
fn test_convert_matrix() -> Result<(), ParseError> {
    let form0 = PqlValue::from_str(
        r#"
{
    "id": [
        1,
        3
    ],
    "x": [
        [
            [2, 4],
            [6]
        ],
        [
            [8]
        ]
    ]
}
"#,
    )?;
    let form3 = PqlValue::from_str(
        r#"
[
  {
    "id": 1,
    "x": 2
  },
  {
    "id": 1,
    "x": 4
  },
  {
    "id": 1,
    "x": 6
  },
  {
    "id": 3,
    "x": 8
  }
]
"#,
    )?;

    let rows = Rows::from(form0.to_owned());
    let _v = PqlValue::from(rows.to_owned());
    let records = Records::from(rows);
    let list = records.into_list();
    assert_eq!(PqlValue::from(list.to_owned()), form3);

    Ok(())
}

fn project(plan: LogicalPlan, env: &Env) -> PqlValue {
    let mut v = ObjectMap::new();
    for field in plan.project.0 {
        let field = field.expand_fullpath(env);
        let (alias, expr) = field.rename();
        let value = expr.eval(env).unwrap();
        v.insert(alias, value);
    }
    let v = Rows::from(PqlValue::Object(v));
    let v = Records::from(v);
    let v = v.into_list();
    PqlValue::from(v)
}

#[test]
fn test_project_a_missing_value() -> Result<(), ParseError> {
    let env = Env::from(PqlValue::from_str(
        r#"
[
    { 'id': 3, 'name': 'Bob Smith' },
    { 'id': 4, 'name': 'Susan Smith', 'title': 'Dev Mgr' },
    { 'id': 6, 'name': 'Jane Smith', 'title': 'Software Eng 2'}
]
"#,
    )?);
    let sql = Sql::from_str(r#"SELECT id, name, title"#)?;
    let logical_plan = LogicalPlan::from(sql);

    let v = project(logical_plan, &env);

    assert_eq!(
        PqlValue::from(v),
        PqlValue::from_str(
            r#"
[
    { 'id': 3, 'name': 'Bob Smith' },
    { 'id': 4, 'name': 'Susan Smith', 'title': 'Dev Mgr' },
    { 'id': 6, 'name': 'Jane Smith', 'title': 'Software Eng 2'}
]
                "#,
        )?
    );
    Ok(())
}

#[test]
fn test_project_a_missing_value2() -> Result<(), ParseError> {
    let env = Env::from(PqlValue::from(vec![
        PqlValue::from_str(
            r#"
    { 'id': 3, 'name': 'Bob Smith' }
            "#,
        )?,
        PqlValue::Missing,
        PqlValue::from_str(
            r#"
    { 'id': 6, 'name': 'Jane Smith', 'title': 'Software Eng 2'}
            "#,
        )?,
    ]));
    let sql = Sql::from_str(r#"SELECT id, name, title"#)?;
    let logical_plan = LogicalPlan::from(sql);

    let v = project(logical_plan, &env);

    assert_eq!(
        PqlValue::from(v),
        PqlValue::from_str(
            r#"
[
    { 'id': 3, 'name': 'Bob Smith' },
    {},
    { 'id': 6, 'name': 'Jane Smith', 'title': 'Software Eng 2'}
]
                "#,
        )?
    );
    Ok(())
}

#[test]
fn rows_without_a_filled_cell_give_one_empty_object() {
    let v = PqlValue::from_str("{ 'a': [[], []] }").unwrap();
    let list = partiql::planner::to_list(v);
    assert_eq!(
        PqlValue::from(list),
        PqlValue::from_str("[ {}, {} ]").unwrap()
    );
}

#[test]
fn cells_are_multiplied_out_in_lexicographic_order() {
    let v = PqlValue::from_str("{ 'a': [[1, 2]], 'b': [['x', 'y', 'z']] }").unwrap();
    let list = partiql::planner::to_list(v);
    assert_eq!(
        PqlValue::from(list),
        PqlValue::from_str(
            "[ {'a': 1, 'b': 'x'}, {'a': 1, 'b': 'y'}, {'a': 1, 'b': 'z'},
               {'a': 2, 'b': 'x'}, {'a': 2, 'b': 'y'}, {'a': 2, 'b': 'z'} ]"
        )
        .unwrap()
    );
}

#[test]
fn a_scalar_column_makes_one_row() {
    let v = PqlValue::from_str("{ 'a': [1, 2, 3], 'b': 5 }").unwrap();
    let rows = Rows::from(v);
    assert_eq!(rows.size(), 1);
    let list = Records::from(rows).into_list();
    assert_eq!(
        PqlValue::from(list),
        PqlValue::from_str("[ {'a': 1, 'b': 5} ]").unwrap()
    );
}

#[test]
fn no_row_holds_a_missing_value_and_keys_are_distinct() {
    let v = PqlValue::from_str("{ 'a': [1, missing, 3], 'b': [missing, 2, missing] }").unwrap();
    let list = partiql::planner::to_list(v);
    assert_eq!(list.len(), 3);
    for row in &list {
        match row {
            PqlValue::Object(fields) => {
                for i in 0..fields.len() {
                    let (k, x) = fields.get_index(i).unwrap();
                    assert!(!x.is_missing());
                    assert!(k == "a" || k == "b");
                }
            }
            _ => panic!("a row is an object"),
        }
    }
    assert_eq!(
        PqlValue::from(list),
        PqlValue::from_str("[ {'a': 1}, {'b': 2}, {'a': 3} ]").unwrap()
    );
}

#[test]
fn test_subqueries() -> Result<(), ParseError> {
    let mut env = Env::from(PqlValue::from_str(
        r#"
{
  "hr": {
      "employeesNest": [
         {
            "id": 3,
            "name": "Bob Smith",
            "title": null,
            "projects": [
                { "name": "AWS Redshift Spectrum querying" },
                { "name": "AWS Redshift security" },
                { "name": "AWS Aurora security" }
            ]
          },
          {
              "id": 4,
              "name": "Susan Smith",
              "title": "Dev Mgr",
              "projects": []
          },
          {
              "id": 6,
              "name": "Jane Smith",
              "title": "Software Eng 2",
              "projects": [ { "name": "AWS Redshift security" } ]
          }
      ]
    }
}
        "#,
    )?);
    let sql = Sql::from_str(
        r#"
SELECT e.name AS employeeName,
  ( SELECT p
    FROM e.projects AS p
    WHERE p.name LIKE '%querying%'
  ) AS queryProjectsNum
FROM hr.employeesNest AS e
        "#,
    )?;
    let logical_plan = LogicalPlan::from(sql);

    for drain in &logical_plan.drains {
        drain.execute(&mut env).unwrap();
    }

    let kept = logical_plan
        .filter
        .execute(env.root().clone(), &env)
        .unwrap()
        .unwrap();
    env.set_root(kept);

    let mut v = ObjectMap::new();
    for field in logical_plan.project.0.iter() {
        let field = field.expand_fullpath(&env);
        let (alias, expr) = field.rename();
        let value = expr.eval(&env).unwrap();
        v.insert(alias, value);
    }

    let v = Rows::from(PqlValue::Object(v));
    let v = Records::from(v);
    let v = v.into_list();
    let v = PqlValue::Bag(v);

    assert_eq!(
        v.render(),
        "<<{'employeeName': 'Bob Smith', 'queryProjectsNum': {'projects': {'name': 'AWS Redshift Spectrum querying'}}}, {'employeeName': 'Susan Smith'}, {'employeeName': 'Jane Smith'}>>"
    );
    assert_eq!(
        v,
        PqlValue::from_str(
            r#"
<<
  {
    'employeeName': 'Bob Smith',
    'queryProjectsNum': {
      'projects': {
        'name': 'AWS Redshift Spectrum querying'
      }
    }
  },
  {
    'employeeName': 'Susan Smith'
  },
  {
    'employeeName': 'Jane Smith'
  }
>>
                "#,
        )?
    );
    Ok(())
}
