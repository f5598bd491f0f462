use unit_forge_lib::definitions::{find_category, merge};
use unit_forge_lib::{
    construct_base_units_map, construct_unit_translation_map, DefinitionError, Operator,
    UnitDefinition, UnitDefinitions, UnitTable,
};

fn from_toml(text: &str) -> UnitDefinitions<f64> {
    let table: toml::Table = text.parse().unwrap();
    let mut categories = Vec::new();
    for (category, units) in table.iter() {
        let mut list = Vec::new();
        for (key, unit) in units.as_table().unwrap().iter() {
            let unit = unit.as_table().unwrap();
            for field in unit.keys() {
                assert!(matches!(field.as_str(), "name" | "symbol" | "factor" | "derived"));
            }
            let factor = match unit.get("factor") {
                Some(value) => value
                    .as_float()
                    .or(value.as_integer().map(|whole| whole as f64))
                    .unwrap(),
                None => 1.0,
            };
            list.push((
                key.clone(),
                UnitDefinition {
                    name: unit["name"].as_str().unwrap().to_string(),
                    symbol: unit["symbol"].as_str().unwrap().to_string(),
                    factor,
                    derived: unit.get("derived").map(|value| value.as_str().unwrap().to_string()),
                },
            ));
        }
        categories.push((category.clone(), list));
    }
    UnitDefinitions { categories }
}

fn unit(factor: f64, derived: Option<&str>) -> UnitDefinition<f64> {
    UnitDefinition {
        name: String::new(),
        symbol: String::new(),
        factor,
        derived: derived.map(|expression| expression.to_string()),
    }
}

fn category(name: &str, units: Vec<(&str, UnitDefinition<f64>)>) -> (String, Vec<(String, UnitDefinition<f64>)>) {
    (
        name.to_string(),
        units.into_iter().map(|(key, unit)| (key.to_string(), unit)).collect(),
    )
}

#[test]
fn test_unit_translation_map() {
    let toml_str = r#"
[length]
m = { name = "meter", symbol = "m" }

[area]
m2 = { name = "square meter", symbol = "m²", derived = "m * m" }

[time]
s = { name = "second", symbol = "s" }

[speed]
mps = { name = "meters per second", symbol = "m/s", derived = "m / s" }
"#;
    let definitions: UnitDefinitions<f64> = from_toml(toml_str);
    let map = construct_unit_translation_map(&definitions).unwrap();

    // Test m * m -> m² (area)
    assert_eq!(map.get(&("m", "*", "m")).unwrap(), &"m2");
    assert_eq!(map.get(&("m2", "/", "m")).unwrap(), &"m");

    // Test m / s -> m/s (speed)
    assert_eq!(map.get(&("m", "/", "s")).unwrap(), &"mps");
    assert_eq!(map.get(&("mps", "*", "s")).unwrap(), &"m");
    assert_eq!(map.get(&("m", "/", "mps")).unwrap(), &"s");
}

#[test]
fn test_multiple_operators() {
    let toml_str = r#"
[length]
m = { name = "meter", symbol = "m" }

[area]
m2 = { name = "square meter", symbol = "m²", derived = "m * m" }

[volume]
m3 = { name = "cubic meter", symbol = "m³", derived = "m * m * m" }
"#;
    let definitions: UnitDefinitions<f64> = from_toml(toml_str);
    let map = construct_unit_translation_map(&definitions).unwrap();

    // Test basic area operations
    assert_eq!(map.get(&("m", "*", "m")).unwrap(), &"m2");
    assert_eq!(map.get(&("m2", "/", "m")).unwrap(), &"m");

    // Test volume operations
    assert_eq!(map.get(&("m2", "*", "m")).unwrap(), &"m3");
    assert_eq!(map.get(&("m3", "/", "m")).unwrap(), &"m2");
    assert_eq!(map.get(&("m3", "/", "m2")).unwrap(), &"m");
}

#[test]
fn test_duplicate_unit_error() {
    let toml_str = r#"
[length]
m = { name = "meter", symbol = "m" }

[area]
m = { name = "another meter", symbol = "m" }
"#;
    let definitions: UnitDefinitions<f64> = from_toml(toml_str);
    let err = construct_unit_translation_map(&definitions).unwrap_err();
    println!("Error: {}", err.message());
    assert!(matches!(err, DefinitionError::DuplicatedUnit(unit, category)
            if unit == "m" && category == "area"));
}

#[test]
fn test_invalid_derived_expression() {
    let toml_str = r#"
[length]
m = { name = "meter", symbol = "m" }

[area]
m2 = { name = "square meter", symbol = "m²", derived = "m ** m" }
"#;
    let definitions: UnitDefinitions<f64> = from_toml(toml_str);
    let err = construct_unit_translation_map(&definitions).unwrap_err();
    assert!(matches!(err, DefinitionError::InvalidDerivedExpression(expr)
            if expr == "m ** m"));

    // Test invalid operator
    let toml_str = r#"
[length]
m = { name = "meter", symbol = "m" }

[area]
m2 = { name = "square meter", symbol = "m²", derived = "m + m" }
"#;
    let definitions: UnitDefinitions<f64> = from_toml(toml_str);
    let err = construct_unit_translation_map(&definitions).unwrap_err();
    assert!(matches!(err, DefinitionError::InvalidDerivedExpression(expr)
            if expr == "m + m"));
}

#[test]
fn test_undefined_unit_in_derived() {
    let toml_str = r#"
[area]
m2 = { name = "square meter", symbol = "m²", derived = "x * x" }
"#;
    let definitions: UnitDefinitions<f64> = from_toml(toml_str);
    let err = construct_unit_translation_map(&definitions).unwrap_err();
    assert!(matches!(err, DefinitionError::UnitNotFound(unit, expr, category)
            if unit == "x" && expr == "x * x" && category == "area"));
}

#[test]
fn base_unit_of_every_category_is_itself() {
    let definitions = UnitDefinitions {
        categories: vec![
            category("length", vec![("m", unit(1.0, None)), ("cm", unit(0.01, None)), ("km", unit(1000.0, None))]),
            category("time", vec![("second", unit(1.0, None)), ("hour", unit(3600.0, None))]),
        ],
    };
    let table = UnitTable::new(&definitions).unwrap();
    let base = table.base_units_map();
    assert_eq!(base.get("m"), Some(&(1.0, "m".to_string())));
    assert_eq!(base.get("second"), Some(&(1.0, "second".to_string())));
    assert_eq!(base.get("cm"), Some(&(0.01, "m".to_string())));
    assert_eq!(base.get("km"), Some(&(1000.0, "m".to_string())));
    assert_eq!(base.get("hour"), Some(&(3600.0, "second".to_string())));
    assert_eq!(base.get("mile"), None);
    assert_eq!(table.unit_definitions().categories.len(), 2);
}

#[test]
fn base_unit_keeps_its_declared_factor() {
    let definitions = UnitDefinitions {
        categories: vec![category("length", vec![("cm", unit(0.01, None)), ("m", unit(1.0, None))])],
    };
    let base = construct_base_units_map(&definitions).unwrap();
    assert_eq!(base.get("cm"), Some(&(0.01, "cm".to_string())));
    assert_eq!(base.get("m"), Some(&(1.0, "cm".to_string())));
}

#[test]
fn empty_category_is_refused() {
    let definitions = UnitDefinitions {
        categories: vec![
            category("length", vec![("m", unit(1.0, None))]),
            category("mass", vec![]),
            category("time", vec![]),
        ],
    };
    let err = UnitTable::new(&definitions).unwrap_err();
    assert!(matches!(&err, DefinitionError::NoUnitDefined(name) if name == "mass"));
    assert_eq!(err.message(), "No units defined in category 'mass'");
    let err = construct_base_units_map(&definitions).unwrap_err();
    assert!(matches!(&err, DefinitionError::NoUnitDefined(name) if name == "mass"));
}

#[test]
fn empty_category_comes_before_a_duplicate() {
    let definitions = UnitDefinitions {
        categories: vec![
            category("length", vec![("m", unit(1.0, None)), ("m", unit(2.0, None))]),
            category("mass", vec![]),
        ],
    };
    let err = UnitTable::new(&definitions).unwrap_err();
    assert!(matches!(&err, DefinitionError::NoUnitDefined(name) if name == "mass"));
    let err = construct_unit_translation_map(&definitions).unwrap_err();
    assert!(matches!(&err, DefinitionError::DuplicatedUnit(key, name) if key == "m" && name == "length"));
}

#[test]
fn no_definitions_give_empty_tables() {
    let definitions = UnitDefinitions::<f64>::default();
    let table = UnitTable::new(&definitions).unwrap();
    assert_eq!(table.base_units_map().get("m"), None);
    assert_eq!(table.derived_units_map().get(&("m", "*", "m")), None);
}

#[test]
fn first_duplicate_in_order_is_reported() {
    let definitions = UnitDefinitions {
        categories: vec![
            category("a", vec![("x", unit(1.0, None)), ("y", unit(1.0, None))]),
            category("b", vec![("z", unit(1.0, None)), ("y", unit(1.0, None)), ("x", unit(1.0, None))]),
        ],
    };
    let err = UnitTable::new(&definitions).unwrap_err();
    assert!(matches!(&err, DefinitionError::DuplicatedUnit(key, name) if key == "y" && name == "b"));
    assert_eq!(err.message(), "Duplicated unit found. Unit 'y' of category 'b'");
}

#[test]
fn error_messages_of_derived_expressions() {
    let definitions = UnitDefinitions {
        categories: vec![category("area", vec![("m2", unit(1.0, Some("x * x")))])],
    };
    let err = UnitTable::new(&definitions).unwrap_err();
    assert_eq!(
        err.message(),
        "Derived unit not defined. Unit 'x' in expression 'x * x' of category 'area'"
    );
    let definitions = UnitDefinitions {
        categories: vec![category("area", vec![("m", unit(1.0, None)), ("m2", unit(1.0, Some("m *")))])],
    };
    let err = UnitTable::new(&definitions).unwrap_err();
    assert_eq!(err.message(), "Invalid derived expression format: 'm *'");
}

#[test]
fn derived_expression_needs_three_words_or_more_and_an_odd_number() {
    for expression in ["", "m", "m *", "m * m *", "   "] {
        let definitions = UnitDefinitions {
            categories: vec![category("l", vec![("m", unit(1.0, None)), ("q", unit(1.0, Some(expression)))])],
        };
        let err = UnitTable::new(&definitions).unwrap_err();
        assert!(
            matches!(&err, DefinitionError::InvalidDerivedExpression(text) if text == expression),
            "{:?}",
            expression
        );
    }
}

#[test]
fn flaws_of_a_chain_are_found_from_the_left() {
    let definitions = UnitDefinitions {
        categories: vec![category("l", vec![("m", unit(1.0, None)), ("q", unit(1.0, Some("m + y * z")))])],
    };
    let err = UnitTable::new(&definitions).unwrap_err();
    assert!(matches!(&err, DefinitionError::InvalidDerivedExpression(text) if text == "m + y * z"));
    let definitions = UnitDefinitions {
        categories: vec![category("l", vec![("m", unit(1.0, None)), ("q", unit(1.0, Some("m * y + z")))])],
    };
    let err = UnitTable::new(&definitions).unwrap_err();
    assert!(matches!(&err, DefinitionError::UnitNotFound(key, text, name)
        if key == "y" && text == "m * y + z" && name == "l"));
}

#[test]
fn words_of_a_derived_expression_are_split_on_any_white_space() {
    let definitions = UnitDefinitions {
        categories: vec![
            category("length", vec![("m", unit(1.0, None))]),
            category("area", vec![("m2", unit(1.0, Some("\t m\u{00A0}*\u{2003}\u{3000}m\n")))]),
        ],
    };
    let map = construct_unit_translation_map(&definitions).unwrap();
    assert_eq!(map.get(&("m", "*", "m")).unwrap(), "m2");
}

#[test]
fn unit_keys_may_hold_any_character() {
    let definitions = UnitDefinitions {
        categories: vec![
            category("length", vec![("µm", unit(1.0, None))]),
            category("area", vec![("µm²", unit(1.0, Some("µm * µm")))]),
        ],
    };
    let map = construct_unit_translation_map(&definitions).unwrap();
    assert_eq!(map.get(&("µm", "*", "µm")).unwrap(), "µm²");
    assert_eq!(map.lookup("µm²", Operator::Divide, "µm").unwrap(), "µm");
}

#[test]
fn product_is_registered_both_ways() {
    let definitions = UnitDefinitions {
        categories: vec![
            category("length", vec![("m", unit(1.0, None))]),
            category("force", vec![("n", unit(1.0, None))]),
            category("energy", vec![("j", unit(1.0, Some("n * m")))]),
        ],
    };
    let map = construct_unit_translation_map(&definitions).unwrap();
    assert_eq!(map.get(&("n", "*", "m")).unwrap(), "j");
    assert_eq!(map.get(&("m", "*", "n")).unwrap(), "j");
    assert_eq!(map.get(&("j", "/", "n")).unwrap(), "m");
    assert_eq!(map.get(&("j", "/", "m")).unwrap(), "n");
    assert_eq!(map.get(&("n", "/", "m")), None);
}

#[test]
fn quotient_registers_its_inverses() {
    let definitions = UnitDefinitions {
        categories: vec![
            category("length", vec![("m", unit(1.0, None))]),
            category("time", vec![("s", unit(1.0, None))]),
            category("speed", vec![("mps", unit(1.0, Some("m / s")))]),
        ],
    };
    let map = construct_unit_translation_map(&definitions).unwrap();
    assert_eq!(map.get(&("m", "/", "s")).unwrap(), "mps");
    assert_eq!(map.get(&("m", "/", "mps")).unwrap(), "s");
    assert_eq!(map.get(&("mps", "*", "s")).unwrap(), "m");
    assert_eq!(map.get(&("s", "*", "mps")), None);
    assert_eq!(map.get(&("s", "/", "m")), None);
}

#[test]
fn chain_derivation_resolves_through_the_intermediate_unit() {
    let definitions = UnitDefinitions {
        categories: vec![
            category("length", vec![("m", unit(1.0, None))]),
            category("area", vec![("m2", unit(1.0, Some("m * m")))]),
            category("volume", vec![("m3", unit(1.0, Some("m * m * m")))]),
        ],
    };
    let map = construct_unit_translation_map(&definitions).unwrap();
    assert_eq!(map.get(&("m2", "*", "m")).unwrap(), "m3");
    assert_eq!(map.get(&("m3", "/", "m2")).unwrap(), "m");
    assert_eq!(map.get(&("m", "*", "m2")).unwrap(), "m3");
}

#[test]
fn chain_waits_for_a_unit_that_is_declared_later() {
    let definitions = UnitDefinitions {
        categories: vec![
            category("hyper", vec![("m4", unit(1.0, Some("m * m * m * m")))]),
            category("volume", vec![("m3", unit(1.0, Some("m * m * m")))]),
            category("area", vec![("m2", unit(1.0, Some("m * m")))]),
            category("length", vec![("m", unit(1.0, None))]),
        ],
    };
    let map = construct_unit_translation_map(&definitions).unwrap();
    assert_eq!(map.get(&("m", "*", "m")).unwrap(), "m2");
    assert_eq!(map.get(&("m2", "*", "m")).unwrap(), "m3");
    assert_eq!(map.get(&("m3", "*", "m")).unwrap(), "m4");
    assert_eq!(map.get(&("m4", "/", "m3")).unwrap(), "m");
}

#[test]
fn chain_that_can_never_be_resolved_is_refused() {
    let definitions = UnitDefinitions {
        categories: vec![
            category("length", vec![("m", unit(1.0, None))]),
            category("volume", vec![("m3", unit(1.0, Some("m * m * m")))]),
            category("time", vec![("s", unit(1.0, None))]),
            category("odd", vec![("q", unit(1.0, Some("s / m / s")))]),
        ],
    };
    let err = construct_unit_translation_map(&definitions).unwrap_err();
    assert!(matches!(&err, DefinitionError::InvalidDerivedExpression(text) if text == "m * m * m"));
}

#[test]
fn a_later_definition_replaces_an_earlier_relation() {
    let definitions = UnitDefinitions {
        categories: vec![
            category("length", vec![("m", unit(1.0, None))]),
            category("area", vec![("m2", unit(1.0, Some("m * m"))), ("sq", unit(1.0, Some("m * m")))]),
        ],
    };
    let map = construct_unit_translation_map(&definitions).unwrap();
    assert_eq!(map.get(&("m", "*", "m")).unwrap(), "sq");
    assert_eq!(map.get(&("m2", "/", "m")).unwrap(), "m");
    assert_eq!(map.get(&("sq", "/", "m")).unwrap(), "m");
}

#[test]
fn operator_of_a_relation_is_a_star_or_a_slash() {
    let definitions = UnitDefinitions {
        categories: vec![
            category("length", vec![("m", unit(1.0, None))]),
            category("area", vec![("m2", unit(1.0, Some("m * m")))]),
        ],
    };
    let map = construct_unit_translation_map(&definitions).unwrap();
    assert_eq!(map.get(&("m", "+", "m")), None);
    assert_eq!(map.get(&("m", "**", "m")), None);
    assert_eq!(map.lookup("m", Operator::Add, "m"), None);
    assert_eq!(map.lookup("m", Operator::Multiply, "m").unwrap(), "m2");
    assert_eq!(Operator::Multiply.symbol(), "*");
    assert_eq!(Operator::Divide.symbol(), "/");
    assert_eq!(Operator::Add.symbol(), "+");
    assert_eq!(Operator::Subtract.symbol(), "-");
}

#[test]
fn quotient_declared_twice_keeps_the_later_unit() {
    let definitions = UnitDefinitions {
        categories: vec![
            category("length", vec![("m", unit(1.0, None))]),
            category("time", vec![("s", unit(1.0, None))]),
            category("speed", vec![("mps", unit(1.0, Some("m / s"))), ("pace", unit(1.0, Some("m / s")))]),
        ],
    };
    let map = construct_unit_translation_map(&definitions).unwrap();
    assert_eq!(map.get(&("m", "/", "s")).unwrap(), "pace");
    assert_eq!(map.get(&("mps", "*", "s")).unwrap(), "m");
    assert_eq!(map.get(&("pace", "*", "s")).unwrap(), "m");
    assert_eq!(map.get(&("m", "/", "mps")).unwrap(), "s");
}

#[test]
fn chain_with_a_quotient_in_the_middle() {
    let definitions = UnitDefinitions {
        categories: vec![
            category("length", vec![("m", unit(1.0, None))]),
            category("time", vec![("s", unit(1.0, None))]),
            category("speed", vec![("mps", unit(1.0, Some("m / s")))]),
            category("acceleration", vec![("mps2", unit(1.0, Some("m / s / s")))]),
            category("mass", vec![("kg", unit(1.0, None))]),
            category("force", vec![("n", unit(1.0, Some("kg * m / s / s")))]),
        ],
    };
    let err = construct_unit_translation_map(&definitions).unwrap_err();
    assert!(matches!(&err, DefinitionError::InvalidDerivedExpression(text) if text == "kg * m / s / s"));
    let definitions = UnitDefinitions {
        categories: vec![
            category("length", vec![("m", unit(1.0, None))]),
            category("time", vec![("s", unit(1.0, None))]),
            category("speed", vec![("mps", unit(1.0, Some("m / s")))]),
            category("acceleration", vec![("mps2", unit(1.0, Some("m / s / s")))]),
        ],
    };
    let map = construct_unit_translation_map(&definitions).unwrap();
    assert_eq!(map.get(&("mps", "/", "s")).unwrap(), "mps2");
    assert_eq!(map.get(&("mps", "/", "mps2")).unwrap(), "s");
    assert_eq!(map.get(&("mps2", "*", "s")).unwrap(), "mps");
}

#[test]
fn long_chains_declared_backwards_are_resolved() {
    let count = 40;
    let mut categories = vec![];
    for power in (2..=count).rev() {
        let expression = vec!["m"; power].join(" * ");
        categories.push((
            format!("power{}", power),
            vec![(format!("m{}", power), unit(1.0, Some(&expression)))],
        ));
    }
    categories.push(category("length", vec![("m", unit(1.0, None))]));
    let definitions = UnitDefinitions { categories };
    let map = construct_unit_translation_map(&definitions).unwrap();
    assert_eq!(map.get(&("m", "*", "m")).unwrap(), "m2");
    assert_eq!(map.get(&("m39", "*", "m")).unwrap(), "m40");
    assert_eq!(map.get(&("m", "*", "m39")).unwrap(), "m40");
    assert_eq!(map.get(&("m40", "/", "m39")).unwrap(), "m");
    assert_eq!(map.get(&("m40", "/", "m")).unwrap(), "m39");
    assert_eq!(map.get(&("m40", "*", "m")), None);
}

fn names(definitions: &UnitDefinitions<f64>) -> Vec<(String, Vec<String>)> {
    definitions
        .categories
        .iter()
        .map(|(name, units)| (name.clone(), units.iter().map(|(key, _)| key.clone()).collect()))
        .collect()
}

fn named(list: Vec<(&str, Vec<&str>)>) -> Vec<(String, Vec<String>)> {
    list.into_iter()
        .map(|(name, units)| (name.to_string(), units.into_iter().map(str::to_string).collect()))
        .collect()
}

#[test]
fn merged_definitions_replace_a_category_of_the_same_name() {
    let mut all = UnitDefinitions {
        categories: vec![
            category("length", vec![("m", unit(1.0, None))]),
            category("time", vec![("s", unit(1.0, None))]),
        ],
    };
    let other = UnitDefinitions {
        categories: vec![
            category("mass", vec![("kg", unit(1.0, None))]),
            category("length", vec![("ft", unit(1.0, None)), ("in", unit(0.5, None))]),
            category("mass", vec![("lb", unit(1.0, None))]),
        ],
    };
    merge(&mut all, other);
    assert_eq!(
        names(&all),
        named(vec![("length", vec!["ft", "in"]), ("time", vec!["s"]), ("mass", vec!["lb"])])
    );
    assert_eq!(find_category(&all, "time"), Some(1));
    assert_eq!(find_category(&all, "speed"), None);
}

#[test]
fn merged_definitions_keep_what_nothing_replaces() {
    let mut all = UnitDefinitions::<f64>::default();
    merge(&mut all, UnitDefinitions::default());
    assert!(all.categories.is_empty());
    merge(
        &mut all,
        UnitDefinitions { categories: vec![category("a", vec![("x", unit(2.0, None))])] },
    );
    merge(&mut all, UnitDefinitions::default());
    merge(
        &mut all,
        UnitDefinitions { categories: vec![category("b", vec![]), category("a", vec![("y", unit(3.0, None))])] },
    );
    assert_eq!(names(&all), named(vec![("a", vec!["y"]), ("b", vec![])]));
    assert_eq!(all.categories[0].1[0].1.factor, 3.0);
}

#[test]
fn products_divide_back_where_chains_divide_too() {
    let definitions = UnitDefinitions {
        categories: vec![
            category("length", vec![("m", unit(1.0, None))]),
            category("time", vec![("s", unit(1.0, None))]),
            category("area", vec![("m2", unit(1.0, Some("m * m")))]),
            category("speed", vec![("mps", unit(1.0, Some("m / s")))]),
            category("acceleration", vec![("mps2", unit(1.0, Some("m / s / s")))]),
            category("flow", vec![("m3ps", unit(1.0, Some("m2 * mps")))]),
        ],
    };
    let map = construct_unit_translation_map(&definitions).unwrap();
    let keys = ["m", "s", "m2", "mps", "mps2", "m3ps"];
    let mut products = 0;
    for a in keys {
        for b in keys {
            if let Some(c) = map.get(&(a, "*", b)) {
                products += 1;
                assert_eq!(map.get(&(c.as_str(), "/", a)).unwrap(), b, "{} * {}", a, b);
                assert_eq!(map.get(&(c.as_str(), "/", b)).unwrap(), a, "{} * {}", a, b);
            }
            if let Some(c) = map.get(&(a, "/", b)) {
                assert_eq!(map.get(&(a, "/", c.as_str())).unwrap(), b, "{} / {}", a, b);
                assert!(keys.contains(&c.as_str()));
            }
        }
    }
    assert_eq!(products, 5);
    assert_eq!(map.get(&("mps", "*", "s")).unwrap(), "m");
    assert_eq!(map.get(&("s", "*", "mps")), None);
}
