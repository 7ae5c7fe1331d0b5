use partiql::parser::parse;
use partiql::sql::{Expr, Selector};
use partiql::value::Number;

fn num(n: i64) -> Expr {
    Expr::Num(Number::from_i64(n))
}

fn path(p: &str) -> Expr {
    Expr::Selector(Selector::from(p))
}

#[test]
fn parse_sub_sub_path() {
    let parsed = parse("a- b -c");
    assert_eq!(
        parsed,
        Ok((
            "",
            Expr::Sub(
                Box::new(Expr::Sub(Box::new(path("a")), Box::new(path("b")),)),
                Box::new(path("c")),
            )
        ))
    );
}

#[test]
fn parse_sub_sub() {
    let parsed = parse("1-2-3");
    assert_eq!(
        parsed,
        Ok((
            "",
            Expr::Sub(
                Box::new(Expr::Sub(Box::new(num(1)), Box::new(num(2)),)),
                Box::new(num(3)),
            )
        ))
    );
}

#[test]
fn parse_add_statement() {
    let parsed = parse("12 + 34");
    assert_eq!(
        parsed,
        Ok(("", Expr::Add(Box::new(num(12)), Box::new(num(34)))))
    );
}

#[test]
fn parse_subtract_statement() {
    let parsed = parse("12 - 34");
    assert_eq!(
        parsed,
        Ok(("", Expr::Sub(Box::new(num(12)), Box::new(num(34)))))
    );
}

#[test]
fn parse_nested_add_sub_statements() {
    let parsed = parse("12 - 34 + 15 - 9");
    assert_eq!(
        parsed,
        Ok((
            "",
            Expr::Sub(
                Box::new(Expr::Add(
                    Box::new(Expr::Sub(Box::new(num(12)), Box::new(num(34)))),
                    Box::new(num(15))
                )),
                Box::new(num(9))
            )
        ))
    );
}

#[test]
fn test_parse_multi_level_expression() {
    let parsed = parse("1 * 2 + 3 / 4 ^ 6");
    let expected = Expr::Add(
        Box::new(Expr::Mul(Box::new(num(1)), Box::new(num(2)))),
        Box::new(Expr::Div(
            Box::new(num(3)),
            Box::new(Expr::Exp(Box::new(num(4)), Box::new(num(6)))),
        )),
    );
    assert_eq!(parsed, Ok(("", expected)));
}

#[test]
fn test_parse_expression_with_parantheses() {
    let parsed = parse("(1 + 2) * 3");
    let expected = Expr::Mul(
        Box::new(Expr::Add(Box::new(num(1)), Box::new(num(2)))),
        Box::new(num(3)),
    );
    assert_eq!(parsed, Ok(("", expected)));
}

#[test]
fn parse_leaves_the_rest() {
    let parsed = parse("a.b[2] + 1 FROM x");
    let mut sel = Selector::from("a.b");
    sel.push(partiql::sql::SelectorNode::Index(2));
    assert_eq!(
        parsed,
        Ok((
            "FROM x",
            Expr::Add(Box::new(Expr::Selector(sel)), Box::new(num(1)))
        ))
    );
}

#[test]
fn parse_power_groups_to_the_right() {
    let parsed = parse("2 ^ 3 ^ 2");
    let expected = Expr::Exp(
        Box::new(num(2)),
        Box::new(Expr::Exp(Box::new(num(3)), Box::new(num(2)))),
    );
    assert_eq!(parsed, Ok(("", expected)));
}

#[test]
fn parse_reports_the_position_of_the_failure() {
    let parsed = parse("1 +\n  ) 2");
    let e = parsed.unwrap_err();
    assert_eq!(e.line, 2);
    assert_eq!(e.column, 3);
}

#[test]
fn parse_evaluates_with_precedence() {
    let (_, e) = parse("1 * 2 + 3 / 4 ^ 6").unwrap();
    let v = e.eval_over(&partiql::value::PqlValue::Null).unwrap();
    assert_eq!(
        v,
        partiql::value::PqlValue::Num(Number::new(8195, 4096).unwrap())
    );
}
