use std::collections::HashMap;

use unit_forge_lib::{Error, Execution, Interpretor, Operator, Step, UnitDefinition, UnitDefinitions};

fn from_toml(text: &str) -> UnitDefinitions<f64> {
    let table: toml::Table = text.parse().unwrap();
    let mut categories = Vec::new();
    for (category, units) in table.iter() {
        let mut list = Vec::new();
        for (key, unit) in units.as_table().unwrap().iter() {
            let unit = unit.as_table().unwrap();
            for field in unit.keys() {
                assert!(matches!(field.as_str(), "name" | "symbol" | "factor" | "derived"));
            }
            let factor = match unit.get("factor") {
                Some(value) => value
                    .as_float()
                    .or(value.as_integer().map(|whole| whole as f64))
                    .unwrap(),
                None => 1.0,
            };
            list.push((
                key.clone(),
                UnitDefinition {
                    name: unit["name"].as_str().unwrap().to_string(),
                    symbol: unit["symbol"].as_str().unwrap().to_string(),
                    factor,
                    derived: unit.get("derived").map(|value| value.as_str().unwrap().to_string()),
                },
            ));
        }
        categories.push((category.clone(), list));
    }
    UnitDefinitions { categories }
}

/// The numbers of a session: the library gives the steps, this takes them.
struct Session<'a> {
    interpretor: Interpretor<'a, f64>,
    values: HashMap<String, f64>,
}

impl<'a> Session<'a> {
    fn new(definitions: &'a UnitDefinitions<f64>) -> Self {
        Session {
            interpretor: Interpretor::new(definitions).unwrap(),
            values: HashMap::new(),
        }
    }

    fn execute_command(&mut self, command: &str) -> Result<(f64, String), Vec<Error>> {
        let execution = self.interpretor.execute_command(command);
        self.take(execution)
    }

    fn take(&mut self, execution: Execution<f64>) -> Result<(f64, String), Vec<Error>> {
        let mut stack: Vec<f64> = Vec::new();
        for step in &execution.steps {
            match step {
                Step::Literal(digits) => stack.push(digits.parse().unwrap()),
                Step::Scale(factor) => {
                    let value = stack.pop().unwrap();
                    stack.push(value * factor);
                }
                Step::Unscale(factor) => {
                    let value = stack.pop().unwrap();
                    stack.push(value / factor);
                }
                Step::Negate => {
                    let value = stack.pop().unwrap();
                    stack.push(-value);
                }
                Step::Apply(operator) => {
                    let right = stack.pop().unwrap();
                    let left = stack.pop().unwrap();
                    stack.push(match operator {
                        Operator::Add => left + right,
                        Operator::Subtract => left - right,
                        Operator::Multiply => left * right,
                        Operator::Divide => left / right,
                    });
                }
                Step::Load(name) => stack.push(self.values[name]),
                Step::Store(name) => {
                    self.values.insert(name.clone(), *stack.last().unwrap());
                }
            }
        }
        match execution.result {
            Ok(unit) => {
                assert_eq!(stack.len(), 1);
                Ok((stack[0], unit))
            }
            Err(errors) => Err(errors),
        }
    }
}

const LENGTH_AND_TIME: &str = r#"
[length]
m = { name = "meter", symbol = "m" }

[time]
sec = { name = "second", symbol = "s" }
"#;

const METRIC: &str = r#"
[length]
m = { name = "meter", symbol = "m" }
cm = { name = "centimeter", symbol = "cm", factor = 0.01 }
km = { name = "kilometer", symbol = "km", factor = 1000 }

[area]
m2 = { name = "square meter", symbol = "m2", derived = "m * m" }
cm2 = { name = "square centimeter", symbol = "cm2", factor = 0.0001 }

[volume]
m3 = { name = "cubic meter", symbol = "m3", derived = "m * m * m" }

[time]
second = { name = "second", symbol = "s" }
hour = { name = "hour", symbol = "h", factor = 3600 }

[speed]
mps = { name = "meter per second", symbol = "m/s", derived = "m / second" }
"#;

#[test]
fn interpretor_test_eval_without_unit() {
    let expr = "1 + 2 * 3";
    let unit_definitions = UnitDefinitions::default();
    let mut interceptor = Session::new(&unit_definitions);
    let result = interceptor.execute_command(expr);
    assert_eq!(result, Ok((7.0, "".to_string())));
}

#[test]
fn interpretor_test_eval_with_unit_definitions() {
    let expr = "1 m + 2 cm";
    let unit_definitions = from_toml(
        r#"
[length]
m = { name = "meter", symbol = "m" }
cm = { name = "centimeter", symbol = "cm", factor = 0.01 }
"#,
    );
    let mut interceptor = Session::new(&unit_definitions);
    let result = interceptor.execute_command(expr);
    assert_eq!(result, Ok((1.02, "m".to_string())));
}

#[test]
fn interpretor_test_eval_with_unit_map() {
    let expr = "1 cm2 + 2 cm * 3cm";
    let unit_definitions = from_toml(
        r#"
[length]
cm = { name = "center meter", symbol = "cm" }

[area]
cm2 = { name = "square center meter", symbol = "cm2", derived = "cm * cm" }
"#,
    );

    let mut interceptor = Session::new(&unit_definitions);
    let result = interceptor.execute_command(expr);
    assert_eq!(result, Ok((7.0, "cm2".to_string())));
}

#[test]
fn test_eval_incompatible_units() {
    let expr = "1 m + 2 sec";
    let unit_definitions = from_toml(LENGTH_AND_TIME);

    let mut interceptor = Session::new(&unit_definitions);
    let result = interceptor.execute_command(expr);
    assert!(result.is_err());
    let errors = result.unwrap_err();
    assert_eq!(errors[0].1, "Cannot evaluate \"m\" + \"sec\"");
}

#[test]
fn interpretor_test_eval_invalid_unit_multiplication() {
    let expr = "2 m * 3 sec";
    let unit_definitions = from_toml(LENGTH_AND_TIME);
    let mut interceptor = Session::new(&unit_definitions);
    let result = interceptor.execute_command(expr);
    assert!(result.is_err());
    let errors = result.unwrap_err();
    assert_eq!(errors[0].1, "Cannot evaluate \"m\" * \"sec\"");
}

#[test]
fn interpretor_test_eval_unknown_variable() {
    let expr = "x + 2";
    let unit_definitions = UnitDefinitions::default();
    let mut interceptor = Session::new(&unit_definitions);
    let result = interceptor.execute_command(expr);
    assert!(result.is_err());
    let errors = result.unwrap_err();
    assert_eq!(errors[0].1, "Cannot find variable \"x\" in scope");
}

#[test]
fn interpretor_test_eval_let_with_incompatible_units() {
    let unit_definitions = from_toml(LENGTH_AND_TIME);
    let mut interceptor = Session::new(&unit_definitions);
    interceptor.execute_command("x = 5m").unwrap();
    let result = interceptor.execute_command("x + 3 sec");
    assert!(result.is_err());
    let errors = result.unwrap_err();
    assert_eq!(errors[0].1, "Cannot evaluate \"m\" + \"sec\"");
}

#[test]
fn should_show_error_for_invalid_expression() {
    let unit_definitions = UnitDefinitions::default();
    let mut interceptor = Session::new(&unit_definitions);
    let result = interceptor.execute_command("1 + 2 *");
    assert!(result.is_err());
    let errors = result.unwrap_err();
    assert_eq!(errors[0].1, "found end of input at 7..7");
}

#[test]
fn test_to_expr() {
    let expr = "1 m >> cm";
    let unit_definitions = from_toml(
        r#"
[length]
m = { name = "meter", symbol = "m" }
cm = { name = "centimeter", symbol = "cm", factor = 0.01 }
"#,
    );

    let mut interceptor = Session::new(&unit_definitions);
    let result = interceptor.execute_command(expr);
    assert_eq!(result, Ok((100.0, "cm".to_string())));
}

#[test]
fn test_to_expr_with_incompatible_units() {
    let expr = "1 m >> sec";
    let unit_definitions = from_toml(
        r#"
[length]
m = { name = "meter", symbol = "m" }

[time]
sec = { name = "sec", symbol = "s" }
"#,
    );

    let mut interceptor = Session::new(&unit_definitions);
    let result = interceptor.execute_command(expr);
    assert!(result.is_err());
    let errors = result.unwrap_err();
    assert_eq!(errors[0].1, "Cannot convert to unit \"sec\"");
}

#[test]
fn sum_of_two_units_without_relation_fails() {
    let unit_definitions = from_toml(
        r#"
[length]
m = { name = "meter", symbol = "m" }

[time]
second = { name = "second", symbol = "s" }
"#,
    );
    let mut session = Session::new(&unit_definitions);
    let errors = session.execute_command("1 m + 2 second").unwrap_err();
    assert_eq!(errors.len(), 1);
    assert_eq!(errors[0].0, 0..14);
    assert_eq!(errors[0].1, "Cannot evaluate \"m\" + \"second\"");
    session.execute_command("x = 5 m").unwrap();
    let errors = session.execute_command("x + 3 second").unwrap_err();
    assert_eq!(errors[0].1, "Cannot evaluate \"m\" + \"second\"");
}

#[test]
fn conversion_to_an_undeclared_unit_fails() {
    let unit_definitions = from_toml(
        r#"
[length]
m = { name = "meter", symbol = "m" }
cm = { name = "centimeter", symbol = "cm", factor = 0.01 }
"#,
    );
    let mut session = Session::new(&unit_definitions);
    assert_eq!(session.execute_command("1 m >> cm"), Ok((100.0, "cm".to_string())));
    let errors = session.execute_command("1 m >> second").unwrap_err();
    assert_eq!(errors[0].0, 0..13);
    assert_eq!(errors[0].1, "Unknown unit second");
}

#[test]
fn variable_keeps_value_and_unit_between_commands() {
    let unit_definitions = from_toml(METRIC);
    let mut session = Session::new(&unit_definitions);
    assert_eq!(session.execute_command("x = 5 cm"), Ok((0.05, "m".to_string())));
    assert_eq!(session.execute_command("x"), Ok((0.05, "m".to_string())));
    assert_eq!(session.execute_command("x + x"), Ok((0.1, "m".to_string())));
    assert_eq!(session.execute_command("x = 7"), Ok((7.0, "".to_string())));
    assert_eq!(session.execute_command("x"), Ok((7.0, "".to_string())));
}

#[test]
fn last_result_follows_every_successful_command() {
    let unit_definitions = from_toml(METRIC);
    let mut session = Session::new(&unit_definitions);
    let errors = session.execute_command("$").unwrap_err();
    assert_eq!(errors[0].1, "Cannot find variable \"$\" in scope");
    assert_eq!(session.execute_command("2 m"), Ok((2.0, "m".to_string())));
    assert_eq!(session.execute_command("$ * 3"), Ok((6.0, "m".to_string())));
    assert_eq!(session.execute_command("$ * $"), Ok((36.0, "m2".to_string())));
    assert!(session.execute_command("$ + 1").is_err());
    assert!(session.execute_command("1 +").is_err());
    assert_eq!(session.execute_command("$"), Ok((36.0, "m2".to_string())));
}

#[test]
fn last_result_cannot_be_assigned() {
    let unit_definitions = from_toml(METRIC);
    let mut session = Session::new(&unit_definitions);
    assert_eq!(session.execute_command("4"), Ok((4.0, "".to_string())));
    let errors = session.execute_command("$ = 5").unwrap_err();
    assert_eq!(errors[0].0, 0..5);
    assert_eq!(errors[0].1, "Cannot assign to reserved variable \"$\"");
    assert_eq!(session.execute_command("$"), Ok((4.0, "".to_string())));
}

#[test]
fn plain_number_and_unit_do_not_add() {
    let unit_definitions = from_toml(METRIC);
    let mut session = Session::new(&unit_definitions);
    let errors = session.execute_command("1 m + 2").unwrap_err();
    assert_eq!(errors[0].1, "Cannot evaluate \"m\" + \"\"");
    let errors = session.execute_command("1 - 2 m").unwrap_err();
    assert_eq!(errors[0].1, "Cannot evaluate \"\" - \"m\"");
}

#[test]
fn plain_number_scales_a_unit() {
    let unit_definitions = from_toml(METRIC);
    let mut session = Session::new(&unit_definitions);
    assert_eq!(session.execute_command("3 * 2 m"), Ok((6.0, "m".to_string())));
    assert_eq!(session.execute_command("2 m * 3"), Ok((6.0, "m".to_string())));
    assert_eq!(session.execute_command("6 m / 3"), Ok((2.0, "m".to_string())));
    assert_eq!(session.execute_command("6 / 3 m"), Ok((2.0, "m".to_string())));
    assert_eq!(session.execute_command("6 / 3"), Ok((2.0, "".to_string())));
}

#[test]
fn units_combine_through_the_relations() {
    let unit_definitions = from_toml(METRIC);
    let mut session = Session::new(&unit_definitions);
    assert_eq!(session.execute_command("2 m * 3 m"), Ok((6.0, "m2".to_string())));
    assert_eq!(session.execute_command("6 m2 / 3 m"), Ok((2.0, "m".to_string())));
    assert_eq!(session.execute_command("2 m * 3 m * 4 m"), Ok((24.0, "m3".to_string())));
    assert_eq!(session.execute_command("24 m3 / 6 m2"), Ok((4.0, "m".to_string())));
    assert_eq!(session.execute_command("360 km / 2hour"), Ok((50.0, "mps".to_string())));
    assert_eq!(session.execute_command("50 mps * 2 second"), Ok((100.0, "m".to_string())));
    let errors = session.execute_command("2 second * 50 mps").unwrap_err();
    assert_eq!(errors[0].1, "Cannot evaluate \"second\" * \"mps\"");
    let errors = session.execute_command("1 m / 1 m").unwrap_err();
    assert_eq!(errors[0].1, "Cannot evaluate \"m\" / \"m\"");
}

#[test]
fn test_complex_expressions() {
    let unit_definitions = from_toml(METRIC);

    let mut interceptor = Session::new(&unit_definitions);
    interceptor.execute_command("x = 2 m").unwrap();
    interceptor.execute_command("y = 3 cm").unwrap();
    let result = interceptor.execute_command("x + y * 4").unwrap();
    assert_eq!(result, (2.12, "m".to_string()));

    let mut interceptor = Session::new(&unit_definitions);
    let result = interceptor.execute_command("((1km + 2cm) * 2 * 3m + 4cm2) * 5m + 6m3");
    assert_eq!(result, Ok((30006.602, "m3".to_string())));

    let mut interceptor = Session::new(&unit_definitions);
    let result = interceptor.execute_command("360 km / 2hour");
    assert_eq!(result, Ok((50.0, "mps".to_string())));
}

#[test]
fn negation_keeps_the_unit() {
    let unit_definitions = from_toml(METRIC);
    let mut session = Session::new(&unit_definitions);
    assert_eq!(session.execute_command("-3 cm"), Ok((-0.03, "m".to_string())));
    assert_eq!(session.execute_command("- - 3"), Ok((3.0, "".to_string())));
    assert_eq!(session.execute_command("2 - -3"), Ok((5.0, "".to_string())));
    assert_eq!(session.execute_command("-(1 m + 1 m)"), Ok((-2.0, "m".to_string())));
}

#[test]
fn unknown_unit_of_a_literal() {
    let unit_definitions = from_toml(METRIC);
    let mut session = Session::new(&unit_definitions);
    let errors = session.execute_command("3 parsec").unwrap_err();
    assert_eq!(errors[0].0, 0..8);
    assert_eq!(errors[0].1, "Unknown unit: \"parsec\"");
    let errors = session.execute_command("3 $").unwrap_err();
    assert_eq!(errors[0].1, "Unknown unit: \"$\"");
}

#[test]
fn conversion_gives_the_requested_unit() {
    let unit_definitions = from_toml(METRIC);
    let mut session = Session::new(&unit_definitions);
    assert_eq!(session.execute_command("3 km >> m"), Ok((3000.0, "m".to_string())));
    assert_eq!(session.execute_command("3 km >> km"), Ok((3.0, "km".to_string())));
    assert_eq!(session.execute_command("$"), Ok((3.0, "km".to_string())));
    let errors = session.execute_command("$ + 1 km").unwrap_err();
    assert_eq!(errors[0].1, "Cannot evaluate \"km\" + \"m\"");
    let errors = session.execute_command("3 >> m").unwrap_err();
    assert_eq!(errors[0].1, "Cannot convert to unit \"m\"");
    let errors = session.execute_command("3 m >> hour").unwrap_err();
    assert_eq!(errors[0].1, "Cannot convert to unit \"hour\"");
}

#[test]
fn conversion_there_and_back_gives_the_value_again() {
    let unit_definitions = from_toml(METRIC);
    let mut session = Session::new(&unit_definitions);
    for digits in ["1", "7", "250", "123456789"] {
        let there = session.execute_command(&format!("{} km >> cm", digits)).unwrap();
        assert_eq!(there.1, "cm");
        let number: f64 = digits.parse().unwrap();
        assert!((there.0 - number * 100000.0).abs() <= 1e-9 * number * 100000.0);
        let back = session.execute_command(&format!("{} km >> km", digits)).unwrap();
        assert_eq!(back.1, "km");
        assert!((back.0 - number).abs() <= 1e-12 * number);
    }
}

#[test]
fn assignment_before_a_failure_stays() {
    let unit_definitions = from_toml(METRIC);
    let mut session = Session::new(&unit_definitions);
    assert_eq!(session.execute_command("9"), Ok((9.0, "".to_string())));
    let execution = session.interpretor.execute_command("x = 4 km");
    assert!(execution.result.is_ok());
    session.take(execution).unwrap();
    let errors = session.execute_command("x = 1 m + 2 second").unwrap_err();
    assert_eq!(errors[0].1, "Cannot evaluate \"m\" + \"second\"");
    assert_eq!(session.execute_command("x"), Ok((4000.0, "m".to_string())));
    assert_eq!(session.execute_command("9"), Ok((9.0, "".to_string())));
    let errors = session.execute_command("y = 2 + nothing").unwrap_err();
    assert_eq!(errors[0].1, "Cannot find variable \"nothing\" in scope");
    let errors = session.execute_command("y").unwrap_err();
    assert_eq!(errors[0].1, "Cannot find variable \"y\" in scope");
    assert_eq!(session.execute_command("$"), Ok((9.0, "".to_string())));
}

#[test]
fn unreadable_command_changes_nothing() {
    let unit_definitions = from_toml(METRIC);
    let mut session = Session::new(&unit_definitions);
    session.execute_command("x = 1 m").unwrap();
    let execution = session.interpretor.execute_command("x = 2 m )");
    assert!(execution.steps.is_empty());
    let errors = execution.result.unwrap_err();
    assert_eq!(errors.len(), 1);
    assert_eq!(errors[0].0, 8..9);
    assert_eq!(errors[0].1, "found '')'' at 8..9");
    assert_eq!(session.execute_command("x"), Ok((1.0, "m".to_string())));
}

#[test]
fn steps_of_a_command() {
    let unit_definitions = from_toml(METRIC);
    let mut interpretor: Interpretor<f64> = Interpretor::new(&unit_definitions).unwrap();
    let execution = interpretor.execute_command("x = -(2 cm * 3) >> km");
    assert!(execution.result.is_err());
    let execution = interpretor.execute_command("x = -(2 cm * 3)");
    assert_eq!(execution.result, Ok("m".to_string()));
    let steps: Vec<String> = execution.steps.iter().map(|step| format!("{:?}", step)).collect();
    assert_eq!(
        steps,
        vec![
            "Literal(\"2\")",
            "Scale(0.01)",
            "Literal(\"3\")",
            "Apply(Multiply)",
            "Negate",
            "Store(\"x\")",
            "Store(\"$\")",
        ]
    );
    let execution = interpretor.execute_command("x >> cm");
    assert_eq!(execution.result, Ok("cm".to_string()));
    let steps: Vec<String> = execution.steps.iter().map(|step| format!("{:?}", step)).collect();
    assert_eq!(steps, vec!["Load(\"x\")", "Unscale(0.01)", "Store(\"$\")"]);
}

#[test]
fn long_number_is_kept_digit_for_digit() {
    let unit_definitions = UnitDefinitions::<f64>::default();
    let mut session = Session::new(&unit_definitions);
    let result = session.execute_command("100000000000000000000000000000 / 10");
    assert_eq!(result, Ok((1e28, "".to_string())));
}

#[test]
fn unit_with_a_quote_in_its_key_is_escaped_in_the_message() {
    let unit_definitions = UnitDefinitions {
        categories: vec![
            (
                "length".to_string(),
                vec![(
                    "m".to_string(),
                    UnitDefinition { name: String::new(), symbol: String::new(), factor: 1.0, derived: None },
                )],
            ),
            (
                "odd".to_string(),
                vec![(
                    "a\"b".to_string(),
                    UnitDefinition { name: String::new(), symbol: String::new(), factor: 1.0, derived: None },
                )],
            ),
        ],
    };
    let mut session = Session::new(&unit_definitions);
    session.execute_command("x = 1 m").unwrap();
    let table = unit_forge_lib::UnitTable::new(&unit_definitions).unwrap();
    assert!(table.base_units_map().get("a\"b").is_some());
    let errors = session.execute_command("x / 2 a\"b").unwrap_err();
    assert_eq!(errors[0].1, "found ''\"'' at 7..8");
    let error = unit_forge_lib::error::EvalError::IncompatibleUnits(
        "a\"b".to_string(),
        Operator::Divide,
        "m".to_string(),
    );
    assert_eq!(error.message(), "Cannot evaluate \"a\\\"b\" / \"m\"");
    assert_eq!(
        unit_forge_lib::error::incompatible_sentence("left", Operator::Subtract, "right"),
        "Cannot evaluate left - right"
    );
}
