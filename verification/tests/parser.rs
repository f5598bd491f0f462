use unit_forge_lib::parser::parse_command;
use unit_forge_lib::syntax::Expr;
use unit_forge_lib::{Interpretor, UnitDefinition, UnitDefinitions};

fn show(expr: &Expr) -> String {
    match expr {
        Expr::Num(digits, None) => digits.to_string(),
        Expr::Num(digits, Some(unit)) => format!("{}[{}]", digits, unit),
        Expr::Var(name) => name.to_string(),
        Expr::Neg(inner) => format!("(-{})", show(inner)),
        Expr::Binary(operator, left, right) => {
            format!("({} {} {})", show(left), operator.symbol(), show(right))
        }
        Expr::Assign { name, rhs } => format!("{} := {}", name, show(rhs)),
        Expr::To(inner, None) => show(inner),
        Expr::To(inner, Some(unit)) => format!("{} >> {}", show(inner), unit),
    }
}

fn read(command: &str) -> Result<String, usize> {
    parse_command(command).map(|expr| show(&expr))
}

fn units(text: &str) -> Result<String, String> {
    let definitions = UnitDefinitions {
        categories: vec![
            (
                "length".to_string(),
                vec![
                    (
                        "m".to_string(),
                        UnitDefinition { name: String::new(), symbol: String::new(), factor: 1.0, derived: None },
                    ),
                    (
                        "cm".to_string(),
                        UnitDefinition { name: String::new(), symbol: String::new(), factor: 0.01, derived: None },
                    ),
                ],
            ),
            (
                "area".to_string(),
                vec![(
                    "cm2".to_string(),
                    UnitDefinition {
                        name: String::new(),
                        symbol: String::new(),
                        factor: 0.0001,
                        derived: Some("cm * cm".to_string()),
                    },
                )],
            ),
        ],
    };
    let mut interpretor: Interpretor<f64> = Interpretor::new(&definitions).unwrap();
    interpretor
        .execute_command(text)
        .result
        .map_err(|errors| errors[0].1.clone())
}

#[test]
fn sums_and_terms_are_read_with_their_units() {
    assert_eq!(read("1 + 2 * 3"), Ok("(1 + (2 * 3))".to_string()));
    assert_eq!(units("1 + 2 * 3"), Ok("".to_string()));
    assert_eq!(read("1 m + 2 cm"), Ok("(1[m] + 2[cm])".to_string()));
    assert_eq!(units("1 m + 2 cm"), Ok("m".to_string()));
    assert_eq!(read("1 cm2 + 2 cm * 3cm"), Ok("(1[cm2] + (2[cm] * 3[cm]))".to_string()));
    assert_eq!(units("1 cm2 + 2 cm * 3cm"), Err("Cannot evaluate \"m\" * \"m\"".to_string()));
    assert_eq!(units("1 cm2 + 2 cm2"), Ok("cm2".to_string()));
}

#[test]
fn operators_group_from_the_left() {
    assert_eq!(read("1 - 2 - 3"), Ok("((1 - 2) - 3)".to_string()));
    assert_eq!(read("1 / 2 / 3 * 4"), Ok("(((1 / 2) / 3) * 4)".to_string()));
    assert_eq!(read("1 + 2 * 3 - 4 / 5"), Ok("((1 + (2 * 3)) - (4 / 5))".to_string()));
    assert_eq!(read("1-2"), Ok("(1 - 2)".to_string()));
}

#[test]
fn parentheses_group() {
    assert_eq!(read("(1 + 2) * 3"), Ok("((1 + 2) * 3)".to_string()));
    assert_eq!(read("((1))"), Ok("1".to_string()));
    assert_eq!(read(" ( 1 m ) "), Ok("1[m]".to_string()));
    assert_eq!(read("(1"), Err(2));
    assert_eq!(read("()"), Err(1));
    assert_eq!(read("1)"), Err(1));
    assert_eq!(read("(1 + 2) m"), Err(8));
}

#[test]
fn negation_binds_tighter_than_the_operators() {
    assert_eq!(read("-1"), Ok("(-1)".to_string()));
    assert_eq!(read("--1"), Ok("(-(-1))".to_string()));
    assert_eq!(read("- x * - y"), Ok("((-x) * (-y))".to_string()));
    assert_eq!(read("1 - - 2"), Ok("(1 - (-2))".to_string()));
    assert_eq!(read("-"), Err(1));
}

#[test]
fn integer_has_no_leading_zero() {
    assert_eq!(read("0"), Ok("0".to_string()));
    assert_eq!(read("10"), Ok("10".to_string()));
    assert_eq!(read("0 m"), Ok("0[m]".to_string()));
    assert_eq!(read("007"), Err(1));
    assert_eq!(read("1.5"), Err(1));
}

#[test]
fn unit_follows_the_integer_with_or_without_space() {
    assert_eq!(read("3cm"), Ok("3[cm]".to_string()));
    assert_eq!(read("3 cm"), Ok("3[cm]".to_string()));
    assert_eq!(read("3\tcm"), Ok("3[cm]".to_string()));
    assert_eq!(read("3 $"), Ok("3[$]".to_string()));
    assert_eq!(read("3 x y"), Err(4));
    assert_eq!(read("2 x1_y"), Ok("2[x1_y]".to_string()));
}

#[test]
fn identifier_starts_with_a_letter_or_an_underscore() {
    assert_eq!(read("abc"), Ok("abc".to_string()));
    assert_eq!(read("_a1"), Ok("_a1".to_string()));
    assert_eq!(read("a_b_2 + Z"), Ok("(a_b_2 + Z)".to_string()));
    assert_eq!(read("$"), Ok("$".to_string()));
    assert_eq!(read("$x"), Err(1));
    assert_eq!(read("é"), Err(0));
    assert_eq!(read("aé"), Err(1));
}

#[test]
fn assignment_takes_a_sum() {
    assert_eq!(read("x = 1 + 2"), Ok("x := (1 + 2)".to_string()));
    assert_eq!(read("x=1"), Ok("x := 1".to_string()));
    assert_eq!(read("  x  =  y  "), Ok("x := y".to_string()));
    assert_eq!(read("$ = 1"), Ok("$ := 1".to_string()));
    assert_eq!(read("x = "), Err(4));
    assert_eq!(read("x = y = 1"), Err(6));
    assert_eq!(read("x = 1 >> cm"), Err(6));
    assert_eq!(read("x == 1"), Err(3));
    assert_eq!(read("(x = 1)"), Err(3));
    assert_eq!(read("1 = 2"), Err(2));
}

#[test]
fn conversion_names_a_unit() {
    assert_eq!(read("1 m >> cm"), Ok("1[m] >> cm".to_string()));
    assert_eq!(read("1>>cm"), Ok("1 >> cm".to_string()));
    assert_eq!(read("x + y >> cm "), Ok("(x + y) >> cm".to_string()));
    assert_eq!(read("1 >> "), Err(5));
    assert_eq!(read("1 >> 2"), Err(5));
    assert_eq!(read("1 > > cm"), Err(3));
    assert_eq!(read("1 >> cm >> m"), Err(8));
    assert_eq!(read("(1 >> cm)"), Err(3));
}

#[test]
fn white_space_of_every_kind_separates() {
    assert_eq!(read("\u{00A0}1\u{2003}+\u{3000}2\u{0085}"), Ok("(1 + 2)".to_string()));
    assert_eq!(read("1\n+\r\n2\t"), Ok("(1 + 2)".to_string()));
    assert_eq!(read("\u{1680}x\u{2028}=\u{2029}1\u{202F}m\u{205F}"), Ok("x := 1[m]".to_string()));
    assert_eq!(read("1\u{200B}+ 2"), Err(1));
    assert_eq!(read("1 2"), Err(2));
}

#[test]
fn empty_command_cannot_be_read() {
    assert_eq!(read(""), Err(0));
    assert_eq!(read("   "), Err(3));
    assert_eq!(read("1 + 2 *"), Err(7));
    assert_eq!(read("1 + * 2"), Err(4));
}

#[test]
fn failure_names_the_character_and_its_bytes() {
    let definitions = UnitDefinitions::<f64>::default();
    let mut interpretor = Interpretor::new(&definitions).unwrap();
    let errors = interpretor.execute_command("1 + é").result.unwrap_err();
    assert_eq!(errors[0].0, 4..6);
    assert_eq!(errors[0].1, "found ''é'' at 4..6");
    let errors = interpretor.execute_command("12 ? 3").result.unwrap_err();
    assert_eq!(errors[0].0, 3..4);
    assert_eq!(errors[0].1, "found ''?'' at 3..4");
    let errors = interpretor.execute_command("≈").result.unwrap_err();
    assert_eq!(errors[0].0, 0..3);
    assert_eq!(errors[0].1, "found ''≈'' at 0..3");
    let errors = interpretor.execute_command("1 + 𝄞").result.unwrap_err();
    assert_eq!(errors[0].0, 4..8);
    assert_eq!(errors[0].1, "found ''𝄞'' at 4..8");
    let errors = interpretor.execute_command("x '").result.unwrap_err();
    assert_eq!(errors[0].0, 2..3);
    assert_eq!(errors[0].1, "found ''\\''' at 2..3");
    let errors = interpretor.execute_command("x \u{1}").result.unwrap_err();
    assert_eq!(errors[0].0, 2..3);
    assert_eq!(errors[0].1, "found ''\\u{1}'' at 2..3");
    let errors = interpretor.execute_command("(((((((((((1").result.unwrap_err();
    assert_eq!(errors[0].0, 12..12);
    assert_eq!(errors[0].1, "found end of input at 12..12");
}
