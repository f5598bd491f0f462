use chumsky::extra;
use chumsky::prelude::{choice, just, recursive, IterParser, Parser, Simple};
use chumsky::text;
use unit_forge_lib::interpretor::describe_parse_failure;
use unit_forge_lib::parser::parse_command;
use unit_forge_lib::syntax::Expr;

/// A tree written out with every grouping shown.
fn show(expr: &Expr) -> String {
    match expr {
        Expr::Num(digits, None) => digits.to_string(),
        Expr::Num(digits, Some(unit)) => format!("{}[{}]", digits, unit),
        Expr::Var(name) => name.to_string(),
        Expr::Neg(inner) => format!("(-{})", show(inner)),
        Expr::Binary(operator, left, right) => {
            format!("({} {} {})", show(left), operator.symbol(), show(right))
        }
        Expr::Assign { name, rhs } => format!("{} := {}", name, show(rhs)),
        Expr::To(inner, None) => show(inner),
        Expr::To(inner, Some(unit)) => format!("{} >> {}", show(inner), unit),
    }
}

fn literal((digits, unit): (&str, Option<&str>)) -> String {
    match unit {
        Some(unit) => format!("{}[{}]", digits, unit),
        None => digits.to_string(),
    }
}

fn negated(_sign: char, inner: String) -> String {
    format!("(-{})", inner)
}

fn combined(left: String, (sign, right): (char, String)) -> String {
    format!("({} {} {})", left, sign, right)
}

fn assigned((name, rhs): (&str, String)) -> String {
    format!("{} := {}", name, rhs)
}

fn converted((inner, unit): (String, Option<&str>)) -> String {
    match unit {
        Some(unit) => format!("{} >> {}", inner, unit),
        None => inner,
    }
}

/// The grammar of the commands, written with parser combinators.
fn combinators<'src>() -> impl Parser<'src, &'src str, String, extra::Err<Simple<'src, char>>> {
    let ident = text::ascii::ident().or(just("$")).padded();

    let expr = recursive(|expr| {
        let int = text::int(10).then(ident.or_not()).map(literal);

        let atom = int
            .or(expr.delimited_by(just('('), just(')')))
            .or(ident.map(str::to_string))
            .padded();

        let op = |c| just(c).padded();

        let unary = op('-').repeated().foldr(atom, negated);

        let product = unary
            .clone()
            .foldl(choice((op('*'), op('/'))).then(unary).repeated(), combined);

        product
            .clone()
            .foldl(choice((op('+'), op('-'))).then(product).repeated(), combined)
    });

    let assign = ident.then_ignore(just('=')).then(expr.clone()).map(assigned);

    let to = expr
        .then(just(">>").padded().ignore_then(ident).or_not())
        .map(converted);

    assign.or(to).padded()
}

/// Reads `command` both ways and holds the results against each other: the
/// same tree, or one failure about the same bytes with the same sentence.
fn agree(command: &str) {
    let expected = combinators().parse(command).into_result().map_err(|errors| {
        assert_eq!(errors.len(), 1);
        (errors[0].span().into_range(), errors[0].to_string())
    });
    let found = parse_command(command)
        .map(|expr| show(&expr))
        .map_err(|at| describe_parse_failure(command, at));
    assert_eq!(found, expected, "{:?}", command);
}

#[test]
fn chosen_commands_are_read_alike() {
    let commands = [
        "",
        " ",
        "1",
        "1 + 2 * 3",
        "1 m + 2 cm",
        "1 cm2 + 2 cm * 3cm",
        "x = 5m",
        "x + 3 sec",
        "1 + 2 *",
        "1 m >> cm",
        "1 m >> sec",
        "((1km + 2cm) * 2 * 3m + 4cm2) * 5m + 6m3",
        "360 km / 2hour",
        "x = 1 >> cm",
        "x == 1",
        "x = = 1",
        "$ = 5",
        "$ + $",
        "3 $",
        "007",
        "0x",
        "10 0",
        "1 2",
        "- - -1",
        "-(-(1))",
        "(1 + 2",
        "1 + 2)",
        "()",
        "(x = 1)",
        "x = (y = 1)",
        "1 >> cm >> m",
        "1 > > cm",
        "1 >>",
        ">> cm",
        "1 >> 2",
        "a_b + _c",
        "a b",
        "1 a b",
        "1.5",
        "1,5",
        "é",
        "1 + é",
        "aé",
        "1é",
        "日本",
        "\u{00A0}1\u{2003}+\u{3000}2\u{0085}",
        "1\u{200B}+ 2",
        "\t1\n+\r2\u{000B}\u{000C}",
        "x\u{2028}=\u{2029}1\u{202F}m\u{205F}",
        "x =",
        "= 1",
        "+ 1",
        "1 +",
        "1 + + 1",
        "1 * / 2",
        "2 ** 3",
        "1 -- 2",
        "1 - - 2",
        "1 m2 / 2 m >> m",
        "12345678901234567890123",
    ];
    for command in commands {
        agree(command);
    }
}

#[test]
fn short_commands_are_read_alike() {
    let letters = ['1', '0', 'x', '$', ' ', '+', '-', '*', '(', ')', '=', '>', 'é', '_'];
    let mut commands = vec![String::new()];
    for _ in 0..4 {
        let mut longer = Vec::new();
        for command in &commands {
            for letter in letters {
                let mut next = command.clone();
                next.push(letter);
                longer.push(next);
            }
        }
        for command in &longer {
            agree(command);
        }
        commands = longer;
    }
}

#[test]
fn longer_commands_are_read_alike() {
    let pieces = [
        "1", "20", "0", "x", "y1", "$", "m", "cm", " ", "  ", "\t", "\u{00A0}", "+", "-", "*", "/",
        "(", ")", "=", ">>", ">", "é", "_", "\u{2003}", "'", "\"", "\\", "\u{1}", "\u{200B}",
    ];
    let mut state: u64 = 0x2545F4914F6CDD1D;
    for _ in 0..20000 {
        let mut command = String::new();
        state ^= state << 13;
        state ^= state >> 7;
        state ^= state << 17;
        let length = 1 + (state % 12) as usize;
        for _ in 0..length {
            state ^= state << 13;
            state ^= state >> 7;
            state ^= state << 17;
            command.push_str(pieces[(state % pieces.len() as u64) as usize]);
        }
        agree(&command);
    }
}
