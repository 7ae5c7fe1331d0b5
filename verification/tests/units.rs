use std::str::FromStr;

use partiql::models::{Array, Atom};
use partiql::parser::clauses;
use partiql::parser::parse;
use partiql::parser::ParseError;
use partiql::sql::like::like_matches;
use partiql::sql::like::search_verdict;
use partiql::sql::re_from_str;
use partiql::sql::{Env, Expr, Selector, SelectorNode, Sql, WhereCond};
use partiql::value::{Number, PqlValue};

fn value(text: &str) -> PqlValue {
    PqlValue::from_str(text).unwrap()
}

fn chars(text: &str) -> Vec<char> {
    text.chars().collect()
}

#[test]
fn like_patterns_become_regular_expressions() {
    assert_eq!(re_from_str("%security%"), "security");
    assert_eq!(re_from_str("abc"), "^abc$");
    assert_eq!(re_from_str("abc%"), "^abc");
    assert_eq!(re_from_str("%abc"), "abc$");
    assert_eq!(re_from_str("a%b_c"), "^a.*b.c$");
    assert_eq!(re_from_str("%%a%%"), "a");
    assert_eq!(re_from_str("%"), "");
    assert_eq!(re_from_str(""), "^$");
}

#[test]
fn like_matches_whole_strings_unless_open() {
    assert!(like_matches("%security%", "AWS Redshift security"));
    assert!(!like_matches("security", "AWS Redshift security"));
    assert!(like_matches("AWS%", "AWS Redshift security"));
    assert!(!like_matches("Redshift%", "AWS Redshift security"));
    assert!(like_matches("B_b", "Bob"));
    assert!(!like_matches("B_b", "Boob"));
    assert!(like_matches("B%b", "Boob"));
    // a pattern that is no regular expression matches nothing
    assert!(!like_matches("(", "("));
    assert!(search_verdict(Some(true)));
    assert!(!search_verdict(Some(false)));
    assert!(!search_verdict(None));
}

#[test]
fn numbers_are_exact() {
    let half = Number::new(1, 2).unwrap();
    let third = Number::new(2, 6).unwrap();
    assert_eq!(third.numerator(), 1);
    assert_eq!(third.denominator(), 3);
    let sum = half.add(&third).unwrap();
    assert_eq!((sum.numerator(), sum.denominator()), (5, 6));
    let diff = third.subtract(&half).unwrap();
    assert_eq!((diff.numerator(), diff.denominator()), (-1, 6));
    let product = half.multiply(&third).unwrap();
    assert_eq!((product.numerator(), product.denominator()), (1, 6));
    let quotient = half.divide(&third).unwrap();
    assert_eq!((quotient.numerator(), quotient.denominator()), (3, 2));
    let rem = Number::from_i64(-7).remainder(&Number::from_i64(2)).unwrap();
    assert_eq!((rem.numerator(), rem.denominator()), (-1, 1));
    let rem = Number::new(7, 2).unwrap().remainder(&Number::from_i64(2)).unwrap();
    assert_eq!((rem.numerator(), rem.denominator()), (3, 2));
    let power = third.power(4).unwrap();
    assert_eq!((power.numerator(), power.denominator()), (1, 81));
    assert!(Number::new(1, 0).is_none());
    assert!(half.divide(&Number::from_i64(0)).is_none());
    assert!(half.remainder(&Number::from_i64(0)).is_none());
    assert!(Number::from_i64(i64::MAX).add(&Number::from_i64(1)).is_none());
    assert!(Number::from_i64(i64::MIN).negate().is_none());
    assert!(Number::from_i64(10).power(19).is_none());
    let one = Number::from_i64(-1).power(u64::MAX - 1).unwrap();
    assert_eq!((one.numerator(), one.denominator()), (1, 1));
    let zero = Number::from_i64(0).power(u64::MAX).unwrap();
    assert_eq!((zero.numerator(), zero.denominator()), (0, 1));
    assert!(third.less_than(&half));
    assert!(!half.less_than(&third));
    assert!(half.same(&Number::new(-3, 6).unwrap().negate().unwrap()));
    assert!(Number::from_i64(0).is_zero());
}

#[test]
fn division_by_zero_is_missing() {
    let zero = Expr::Num(Number::from_i64(0));
    let one = Expr::Num(Number::from_i64(1));
    let e = Expr::Div(Box::new(one), Box::new(zero));
    assert_eq!(e.eval_over(&PqlValue::Null), Ok(PqlValue::Missing));
}

#[test]
fn equality_of_values() {
    assert_eq!(value("<<1, 2, 2>>"), value("<<2, 1, 2>>"));
    assert_ne!(value("<<1, 2, 2>>"), value("<<1, 1, 2>>"));
    assert_ne!(value("<<1, 2>>"), value("<<1, 2, 2>>"));
    assert_ne!(value("[1, 2]"), value("[2, 1]"));
    assert_ne!(value("[1, 2]"), value("<<1, 2>>"));
    assert_eq!(value("{'a': 1, 'b': <<2, 3>>}"), value("{'b': <<3, 2>>, 'a': 1}"));
    assert_ne!(value("{'a': 1}"), value("{'a': 1, 'b': 2}"));
    assert_eq!(value("0.50"), value("1/2"));
    assert_ne!(value("null"), value("missing"));
    assert_ne!(value("'a'"), value("'A'"));
}

#[test]
fn navigation_distributes_over_collections() {
    let v = value("{'a': <<{'b': [{'c': 1}, {'c': 2}]}, {'b': []}, {'x': 0}, 7>>}");
    assert_eq!(
        v.select_by_selector(&Selector::from("a.b.c")),
        value("<<[1, 2], [], missing, missing>>")
    );
    assert_eq!(v.select_by_selector(&Selector::from("a.nothing")), value("<<missing, missing, missing, missing>>"));
    assert_eq!(v.select_by_selector(&Selector::from("nothing.b")), PqlValue::Missing);
    assert_eq!(v.select_by_selector(&Selector::default()), v);
    let mut path = Selector::from("a");
    path.push(SelectorNode::Index(0));
    path.push(SelectorNode::Field("b".to_string()));
    path.push(SelectorNode::Index(1));
    assert_eq!(v.select_by_selector(&path), value("{'c': 2}"));
    path.push(SelectorNode::Index(5));
    assert_eq!(v.select_by_selector(&path), PqlValue::Missing);
}

#[test]
fn the_output_key_is_the_alias_or_the_last_segment() {
    let v = value("{'a': {'b': 1}}");
    let (key, x) = v.project_by_selector(None, &Selector::from("a.b"));
    assert_eq!((key.as_str(), x), ("b", value("1")));
    let (key, _) = v.project_by_selector(Some("n".to_string()), &Selector::from("a.b"));
    assert_eq!(key, "n");
    let (key, x) = v.project_by_selector(None, &Selector::default());
    assert_eq!((key.as_str(), x), ("", v.clone()));
    let mut path = Selector::from("a");
    path.push(SelectorNode::Index(12));
    let (key, _) = v.project_by_selector(None, &path);
    assert_eq!(key, "12");
}

#[test]
fn flatten_removes_one_level() {
    assert_eq!(value("[[1, 2], 3, [[4]], <<5>>]").flatten(), value("[1, 2, 3, [4], 5]"));
    assert_eq!(value("<<[1], []>>").flatten(), value("<<1>>"));
    assert_eq!(value("[1, 2]").flatten(), value("[1, 2]"));
    assert_eq!(value("{'a': [[1]]}").flatten(), value("{'a': [[1]]}"));
    assert_eq!(PqlValue::Missing.then_if_not_missing(), None);
    assert_eq!(PqlValue::Null.then_if_not_missing(), Some(PqlValue::Null));
    assert!(PqlValue::Missing.is_missing());
    assert!(!PqlValue::Null.is_missing());
}

#[test]
fn restriction_keeps_the_siblings() {
    let v = value("{'k': 1, 'top': {'n': 'x', 'items': [{'t': 'a'}, {'t': 'b'}], 'm': [0]}, 'z': null}");
    let cond = WhereCond::Eq {
        expr: Expr::default(),
        right: value("'b'"),
    };
    assert_eq!(
        v.restrict(&Selector::from("top.items.t"), &Some(cond)),
        Some(value(
            "{'k': 1, 'top': {'n': 'x', 'items': [{'t': 'b'}], 'm': [0]}, 'z': null}"
        ))
    );
}

#[test]
fn restriction_drops_what_the_path_does_not_reach() {
    let v = value("{'a': {'b': 1}}");
    assert_eq!(v.clone().restrict(&Selector::from("a.b.c"), &None), None);
    assert_eq!(v.clone().restrict(&Selector::from("a"), &None), None);
    assert_eq!(v.clone().restrict(&Selector::default(), &None), None);
    assert_eq!(v.clone().restrict(&Selector::from("a.b"), &None), Some(v.clone()));
    let like = WhereCond::Like {
        expr: Expr::default(),
        right: "1".to_string(),
    };
    assert_eq!(v.restrict(&Selector::from("a.b"), &Some(like)), None);
    assert_eq!(partiql::planner::restrict(None, &Selector::default(), &None), None);
}

#[test]
fn pruning_drops_what_has_nothing_to_unfold() {
    let v = value("{'e': <<{'n': 1, 'p': [1]}, {'n': 2, 'p': []}, {'n': 3}>>}");
    assert_eq!(
        v.require(&Selector::from("e.p")),
        Some(value("{'e': <<{'n': 1, 'p': [1]}, {'n': 3}>>}"))
    );
    assert_eq!(value("{'e': []}").require(&Selector::from("e")), None);
    assert_eq!(value("{'e': 1}").require(&Selector::from("e.x")), Some(value("{'e': 1}")));
}

#[test]
fn the_environment_expands_paths() {
    let mut env = Env::from(value("{'hr': {'employees': <<{'id': 1}>>}}"));
    assert_eq!(env.expand_fullpath(&Selector::from("id")), Selector::from("id"));
    env.bind("e".to_string(), Selector::from("hr.employees"));
    assert_eq!(env.expand_fullpath(&Selector::from("e.id")), Selector::from("hr.employees.id"));
    assert_eq!(env.expand_fullpath(&Selector::from("id")), Selector::from("hr.employees.id"));
    assert_eq!(env.resolve(&Selector::from("id")), Selector::from("id"));
    assert_eq!(env.resolve(&Selector::from("e.id")), Selector::from("hr.employees.id"));
    assert_eq!(env.lookup("e"), value("<<{'id': 1}>>"));
    assert_eq!(env.lookup("x"), PqlValue::Missing);
    env.push_frame();
    env.bind("e".to_string(), Selector::from("hr"));
    assert_eq!(env.lookup("e"), value("{'employees': <<{'id': 1}>>}"));
    env.pop_frame();
    assert_eq!(env.lookup("e"), value("<<{'id': 1}>>"));
    env.bind_value("lit".to_string(), value("[1]"));
    assert_eq!(env.lookup("lit"), value("[1]"));
    assert_eq!(env.root().select_by_selector(&Selector::from("lit")), value("[1]"));
}

#[test]
fn literals_are_read_with_their_escapes() {
    assert_eq!(value("'it''s'"), PqlValue::Str("it's".to_string()));
    assert_eq!(value("\"say 'hi'\""), PqlValue::Str("say 'hi'".to_string()));
    assert_eq!(value(" TRUE "), PqlValue::Boolean(true));
    assert_eq!(value("Null"), PqlValue::Null);
    assert_eq!(value("-12.50"), PqlValue::Num(Number::new(-25, 2).unwrap()));
    assert_eq!(value("{'a': 1, 'a': 2, 'b': 3}"), value("{'a': 2, 'b': 3}"));
    assert_eq!(value("[ ]"), PqlValue::Array(vec![]));
    assert_eq!(value("<< >>"), PqlValue::Bag(vec![]));
}

#[test]
fn malformed_literals_are_refused_where_they_go_wrong() {
    assert_eq!(PqlValue::from_str(""), Err(ParseError { line: 1, column: 1 }));
    assert_eq!(PqlValue::from_str("[1,\n 2"), Err(ParseError { line: 2, column: 3 }));
    assert_eq!(PqlValue::from_str("'open"), Err(ParseError { line: 1, column: 6 }));
    assert_eq!(PqlValue::from_str("{'a' 1}"), Err(ParseError { line: 1, column: 6 }));
    assert_eq!(PqlValue::from_str("1 2"), Err(ParseError { line: 1, column: 3 }));
    assert_eq!(PqlValue::from_str("nulls"), Err(ParseError { line: 1, column: 1 }));
    assert_eq!(PqlValue::from_str("1/0"), Err(ParseError { line: 1, column: 2 }));
    assert_eq!(
        PqlValue::from_str("340282366920938463463374607431768211456"),
        Err(ParseError { line: 1, column: 1 })
    );
}

#[test]
fn clauses_are_read_one_by_one() {
    let s = chars("select a.b AS x, c FROM t");
    let (fields, end) = clauses::select(&s, 0).unwrap();
    assert_eq!(end, 19);
    assert_eq!(fields.len(), 2);
    assert_eq!(fields[0].alias.as_deref(), Some("x"));
    assert_eq!(fields[0].expr, Expr::Selector(Selector::from("a.b")));
    assert_eq!(fields[1].alias, None);
    assert_eq!(clauses::select(&s, 1).unwrap_err(), 1);

    let s = chars("FROM hr.e e, e.p AS p WHERE");
    let (fields, end) = clauses::from(&s, 0).unwrap();
    assert_eq!(end, 22);
    assert_eq!(fields[0].alias.as_deref(), Some("e"));
    assert_eq!(fields[1].alias.as_deref(), Some("p"));

    let s = chars("left  join e.p p");
    let (fields, end) = clauses::left_join(&s, 0).unwrap();
    assert_eq!((fields.len(), end), (1, 16));
    assert_eq!(clauses::left_join(&chars("left e.p"), 0).unwrap_err(), 0);

    let s = chars("WHERE a.b = 'x'");
    let (cond, end) = clauses::parse_where(&s, 0).unwrap();
    assert_eq!(end, 15);
    match cond {
        WhereCond::Eq { expr, right } => {
            assert_eq!(expr, Expr::Selector(Selector::from("a.b")));
            assert_eq!(right, PqlValue::Str("x".to_string()));
        }
        _ => panic!("a predicate of equality"),
    }
    let s = chars("a like '%x'");
    assert!(clauses::parse_where_eq(&s, 0).is_err());
    let (cond, _) = clauses::parse_where_like(&s, 0).unwrap();
    match cond {
        WhereCond::Like { right, .. } => assert_eq!(right, "%x"),
        _ => panic!("a predicate of likeness"),
    }

    let s = chars("ORDER BY name desc");
    let (by, end) = clauses::orderby(&s, 0).unwrap();
    assert_eq!((by.label.as_str(), by.is_asc, end), ("name", false, 18));
    let (by, end) = clauses::orderby(&chars("order by name "), 0).unwrap();
    assert_eq!((by.label.as_str(), by.is_asc, end), ("name", true, 13));

    let (l, end) = clauses::limit(&chars("LIMIT 10 OFFSET 5"), 0).unwrap();
    assert_eq!((l.limit, l.offset, end), (10, 5, 17));
    let (l, end) = clauses::limit(&chars("limit 3"), 0).unwrap();
    assert_eq!((l.limit, l.offset, end), (3, 0, 7));
    assert_eq!(clauses::offset(&chars("offset 7"), 0), Ok((7, 8)));
    assert_eq!(clauses::offset(&chars("offset x"), 0), Err(7));
    assert_eq!(clauses::limit(&chars("limit 99999999999999999999"), 0), Err(6));
}

#[test]
fn atoms_and_arrays_are_written_line_by_line() {
    let a = Atom::from(42);
    assert_eq!(a.value(), 42);
    assert_eq!(a.render(), "{\n  '_1': 42,\n}\n");
    let numbers: &[u64] = &[1, 20];
    let bag = Array::from(numbers);
    assert_eq!(bag.len(), 2);
    assert_eq!(
        bag.render(),
        "<<\n  {\n  '_1': 1,\n}\n,\n  {\n  '_1': 20,\n}\n,\n>>\n"
    );
    let none: &[u64] = &[];
    assert_eq!(Array::from(none).render(), "<<\n>>\n");
}

#[test]
fn every_value_is_well_formed() {
    let v = value("{'a': [1/3, {'b': <<>>}], 'c': 'x'}");
    v.validate();
    assert_eq!(v.render(), "{'a': [1/3, {'b': <<>>}], 'c': 'x'}");
}

#[test]
fn a_subquery_is_read_as_an_expression() {
    let (rest, e) = parse("( select a.b as x from t as a where a.c = 1 limit 2 ) + 1 tail").unwrap();
    assert_eq!(rest, "tail");
    let inner = Sql::from_str("SELECT a.b AS x FROM t AS a WHERE a.c = 1 LIMIT 2").unwrap();
    let expected = Expr::Add(
        Box::new(Expr::Sql(Box::new(inner.clone()))),
        Box::new(Expr::Num(Number::from_i64(1))),
    );
    assert_eq!(e, expected);
    assert!(inner.equals(&inner.clone()));
    let other = Sql::from_str("SELECT a.b AS x FROM t AS a WHERE a.c = 1 LIMIT 3").unwrap();
    assert!(!inner.equals(&other));
    assert_eq!(
        parse("(select a from\n t where)").unwrap_err(),
        ParseError { line: 2, column: 9 }
    );
    assert_eq!(
        parse("(select a from t").unwrap_err(),
        ParseError { line: 1, column: 17 }
    );
    // parentheses that hold no statement hold an expression
    let (_, e) = parse("(selected)").unwrap();
    assert_eq!(e, Expr::Selector(Selector::from("selected")));
}
