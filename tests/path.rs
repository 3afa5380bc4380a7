use svg::number::Number;
use svg::path::{read_number, read_parameters, read_parameters_elliptical_arc, Command, Data, Positioning};

fn value(number: &Number) -> f32 {
    number.to_string().parse().unwrap()
}

fn values(numbers: &[Number]) -> Vec<f32> {
    numbers.iter().map(value).collect()
}

fn number(text: &str) -> Number {
    Number::parse(text).unwrap()
}

fn numbers(texts: &[&str]) -> Vec<Number> {
    texts.iter().map(|text| number(text)).collect()
}

fn single(content: &str) -> Command {
    let data = Data::parse(content).ok().unwrap();
    let mut commands = data.into_commands();
    assert_eq!(commands.len(), 1);
    commands.pop().unwrap()
}

#[test]
fn data_into_value() {
    let data = Data::new()
        .line_to(numbers(&["1", "2"]))
        .cubic_curve_by(numbers(&["1", "2.5", "3", "4", "5", "6"]))
        .close();

    assert_eq!(data.to_string(), "L1,2 c1,2.5,3,4,5,6 z");
}

#[test]
fn data_data_parse() {
    let data = Data::parse("M1,2 l3,4").ok().unwrap();
    let commands = data.iter();

    assert_eq!(commands.len(), 2);
    match &commands[0] {
        Command::Move(Positioning::Absolute, parameters) => {
            assert_eq!(values(parameters), &[1.0, 2.0])
        }
        _ => unreachable!(),
    }
    match &commands[1] {
        Command::Line(Positioning::Relative, parameters) => {
            assert_eq!(values(parameters), &[3.0, 4.0])
        }
        _ => unreachable!(),
    }
}

fn check(content: &str, letter: char, expected: &[f32]) {
    let command = single(content);
    assert_eq!(command.letter(), letter, "{}", content);
    assert_eq!(values(command.parameters().unwrap()), expected, "{}", content);
}

#[test]
fn data_parser_read_command() {
    check("M4,2", 'M', &[4.0, 2.0]);
    check("m4,\n2", 'm', &[4.0, 2.0]);

    check("L7, 8  9", 'L', &[7.0, 8.0, 9.0]);
    check("l 7,8 \n9", 'l', &[7.0, 8.0, 9.0]);

    check("H\t6,9", 'H', &[6.0, 9.0]);
    check("h6,  \t9", 'h', &[6.0, 9.0]);

    check("V2.1,-3", 'V', &[2.1, -3.0]);
    check("v\n2.1 -3", 'v', &[2.1, -3.0]);

    check("Q90.5 0", 'Q', &[90.5, 0.0]);
    check("q90.5\n, 0", 'q', &[90.5, 0.0]);

    check("T-1", 'T', &[-1.0]);
    check("t -1", 't', &[-1.0]);

    check("C0,1 0,2", 'C', &[0.0, 1.0, 0.0, 2.0]);
    check("c0 ,1 0,  2", 'c', &[0.0, 1.0, 0.0, 2.0]);

    check("S42,0", 'S', &[42.0, 0.0]);
    check("s \t 42,0", 's', &[42.0, 0.0]);

    check("A1 1 2.6,0 0 0 -7", 'A', &[1.0, 1.0, 2.6, 0.0, 0.0, 0.0, -7.0]);
    check("a1 1 2.6,0 0 0 -7", 'a', &[1.0, 1.0, 2.6, 0.0, 0.0, 0.0, -7.0]);
    check("a32 32 0 00.03-45.22", 'a', &[32.0, 32.0, 0.0, 0.0, 0.0, 0.03, -45.22]);
    check("a48 48 0 1148-48", 'a', &[48.0, 48.0, 0.0, 1.0, 1.0, 48.0, -48.0]);
    check("a82.6 82.6 0 0033.48-20.25", 'a', &[82.6, 82.6, 0.0, 0.0, 0.0, 33.48, -20.25]);
    check("a82.45 82.45 0 00-20.24 33.47", 'a', &[82.45, 82.45, 0.0, 0.0, 0.0, -20.24, 33.47]);
    check(
        "a48 48 0 1148-48 48 48 0 01-48 48",
        'a',
        &[48.0, 48.0, 0.0, 1.0, 1.0, 48.0, -48.0, 48.0, 48.0, 0.0, 0.0, 1.0, -48.0, 48.0],
    );
    check(
        "a48 48 0 1148-48 48 48 0 01-48 48 32 32 0 11.03-45.22",
        'a',
        &[
            48.0, 48.0, 0.0, 1.0, 1.0, 48.0, -48.0, 48.0, 48.0, 0.0, 0.0, 1.0, -48.0, 48.0, 32.0,
            32.0, 0.0, 1.0, 1.0, 0.03, -45.22,
        ],
    );
    check("a2.51 2.51 0 01.25.32", 'a', &[2.51, 2.51, 0.0, 0.0, 1.0, 0.25, 0.32]);
    check("a1 1 0 00.25.32", 'a', &[1., 1., 0.0, 0.0, 0.0, 0.25, 0.32]);
    check("a1 1 0 000.25.32", 'a', &[1., 1., 0.0, 0.0, 0.0, 0.25, 0.32]);

    assert!(matches!(single("Z"), Command::Close));
    assert!(matches!(single("z"), Command::Close));
}

#[test]
fn data_parser_read_parameters() {
    assert_eq!(
        values(&read_parameters("1,2 3,4 5 6.7").ok().unwrap()),
        &[1.0, 2.0, 3.0, 4.0, 5.0, 6.7]
    );
    assert_eq!(values(&read_parameters("4-3.1.3e2.4").ok().unwrap()), &[4.0, -3.1, 0.3e2, 0.4]);
}

#[test]
fn parser_read_parameters_elliptical_arc() {
    assert_eq!(
        values(&read_parameters_elliptical_arc("32 32 0 00.03-45.22").ok().unwrap()),
        &[32.0, 32.0, 0.0, 0.0, 0.0, 0.03, -45.22]
    );
    assert_eq!(
        values(&read_parameters_elliptical_arc("48 48 0 1148-48").ok().unwrap()),
        &[48.0, 48.0, 0.0, 1.0, 1.0, 48.0, -48.0]
    );
}

#[test]
fn data_parser_read_number() {
    for (content, expected) in [
        ("0.30000000000000004", 0.3),
        ("1e-4", 1e-4),
        ("-1E2", -1e2),
        ("-0.00100E-002", -1e-5),
    ] {
        let found = read_number(content).ok().unwrap().unwrap();
        assert_eq!(value(&found), expected);
    }
}

#[test]
fn numbers_in_plain_decimal_form() {
    assert_eq!(number("1e-4").to_string(), "0.0001");
    assert_eq!(number("-1E2").to_string(), "-100");
    assert_eq!(number("-0.00100E-002").to_string(), "-0.00001");
    assert_eq!(number("0012.500").to_string(), "12.5");
    assert_eq!(number(".5").to_string(), "0.5");
    assert_eq!(number("+0.0").to_string(), "0");
    assert!(Number::parse("1.e2").is_none());
    assert!(Number::parse("1e").is_none());
    assert!(Number::parse("1 ").is_none());
    assert_eq!(number("0e9999999999").to_string(), "0");
    assert_eq!(read_number("0e9999999999").ok().unwrap().unwrap().to_string(), "0");
    assert_eq!(number("1e-20").to_string(), "0.00000000000000000001");
}

#[test]
fn number_round_trip() {
    for text in ["1e-4", "-1E2", "-0.00100E-002", "12.5e3", "0.30000000000000004", "7", "-0"] {
        let first = number(text);
        let again = number(&first.to_string());
        assert_eq!(first.to_string(), again.to_string());
        assert_eq!(value(&first), text.parse::<f32>().unwrap());
    }
}

#[test]
fn data_round_trip() {
    let data = Data::new()
        .move_to(numbers(&["10", "-0.5"]))
        .line_by(numbers(&["1e3", "2"]))
        .elliptical_arc_to(numbers(&["5", "5", "0", "1", "0", "3", "4"]))
        .horizontal_line_by(numbers(&[]))
        .close();
    let text = data.to_string();
    assert_eq!(text, "M10,-0.5 l1000,2 A5,5,0,1,0,3,4 h z");
    let again = Data::parse(&text).ok().unwrap();
    assert_eq!(again.to_string(), text);
    assert_eq!(again.iter().len(), 5);
}

#[test]
fn path_errors() {
    let error = Data::parse("M1 2 #").err().unwrap();
    assert_eq!(error.description(), "expected a path command");
    assert_eq!(error.to_string(), "expected a path command (line 1, column 7)");

    let error = Data::parse("M1 x2").err().unwrap();
    assert_eq!(error.description(), "found an unknown path command 'x'");

    let error = Data::parse("a1 2 3 4").err().unwrap();
    assert_eq!(error.description(), "failed to parse a flag in an elliptical arc");

    let data = Data::parse("M0e9999999999,1").ok().unwrap();
    assert_eq!(data.to_string(), "M0,1");

    let data = Data::parse("  ").ok().unwrap();
    assert_eq!(data.iter().len(), 0);
    assert_eq!(data.to_string(), "");
}

#[test]
fn builders_write_each_command() {
    let one = || numbers(&["1"]);
    let data = Data::new()
        .move_by(one())
        .horizontal_line_to(one())
        .vertical_line_to(one())
        .vertical_line_by(one())
        .quadratic_curve_to(one())
        .quadratic_curve_by(one())
        .smooth_quadratic_curve_to(one())
        .smooth_quadratic_curve_by(one())
        .cubic_curve_to(one())
        .smooth_cubic_curve_to(one())
        .smooth_cubic_curve_by(one())
        .elliptical_arc_by(numbers(&["1", "1", "0", "0", "1", "2", "3"]))
        .add(Command::Close);
    assert_eq!(data.to_string(), "m1 H1 V1 v1 Q1 q1 T1 t1 C1 S1 s1 a1,1,0,0,1,2,3 z");
    let again = Data::parse(&data.to_string()).ok().unwrap();
    assert_eq!(again.to_string(), data.to_string());
}
