use ofd::numeral::Numeral;
use ofd::st_types::{ParseSTError, PathElement, STBox, STDeltas, STPath, STPos};

fn texts(v: &[Numeral]) -> Vec<String> {
    v.iter().map(|n| n.as_str().to_string()).collect()
}

fn op_of(e: &PathElement) -> (char, Vec<String>) {
    match e {
        PathElement::StartAt(s) => ('S', vec![s.pos.x.as_str().to_string(), s.pos.y.as_str().to_string()]),
        PathElement::MoveTo(s) => ('M', vec![s.pos.x.as_str().to_string(), s.pos.y.as_str().to_string()]),
        PathElement::LineTo(s) => ('L', vec![s.pos.x.as_str().to_string(), s.pos.y.as_str().to_string()]),
        PathElement::QuadraticBezierCurve(q) => (
            'Q',
            vec![
                q.pos1.x.as_str().to_string(),
                q.pos1.y.as_str().to_string(),
                q.pos2.x.as_str().to_string(),
                q.pos2.y.as_str().to_string(),
            ],
        ),
        PathElement::CubicBezierCurve(b) => (
            'B',
            vec![
                b.pos1.x.as_str().to_string(),
                b.pos1.y.as_str().to_string(),
                b.pos2.x.as_str().to_string(),
                b.pos2.y.as_str().to_string(),
                b.pos3.x.as_str().to_string(),
                b.pos3.y.as_str().to_string(),
            ],
        ),
        PathElement::EllipseArc(a) => (
            'A',
            vec![
                a.rx.as_str().to_string(),
                a.ry.as_str().to_string(),
                a.angle.as_str().to_string(),
                a.large.as_str().to_string(),
                a.sweep.as_str().to_string(),
                a.pos.x.as_str().to_string(),
                a.pos.y.as_str().to_string(),
            ],
        ),
        PathElement::ClosePath(_) => ('C', vec![]),
    }
}

fn strs(v: &[&str]) -> Vec<String> {
    v.iter().map(|s| s.to_string()).collect()
}

fn is_invalid<T>(r: Result<T, ParseSTError>) -> bool {
    matches!(r, Err(ParseSTError::InvalidFormat))
}

fn bad_token<T>(r: Result<T, ParseSTError>) -> Option<String> {
    match r {
        Err(ParseSTError::ParseFloatError(t)) => Some(t),
        _ => None,
    }
}

#[test]
fn pos_reads_two_numerals() {
    let p = STPos::from_str("  1.5\t-2e3 ").ok().unwrap();
    assert_eq!(p.x.as_str(), "1.5");
    assert_eq!(p.y.as_str(), "-2e3");
    assert_eq!(p.x.as_str().parse::<f64>().unwrap(), 1.5);
    assert_eq!(p.y.as_str().parse::<f64>().unwrap(), -2000.0);
}

#[test]
fn pos_round_trips_through_text() {
    let p = STPos::from_str(" 10.25\n 7 ").ok().unwrap();
    let t = p.to_text();
    assert_eq!(t, "10.25 7");
    let q = STPos::from_str(&t).ok().unwrap();
    assert_eq!(q.x.as_str(), "10.25");
    assert_eq!(q.y.as_str(), "7");
}

#[test]
fn pos_rejects_wrong_token_counts() {
    assert!(is_invalid(STPos::from_str("")));
    assert!(is_invalid(STPos::from_str("1")));
    assert!(is_invalid(STPos::from_str("1 2 3")));
}

#[test]
fn pos_names_the_bad_numeral() {
    assert_eq!(bad_token(STPos::from_str("1 x")), Some("x".to_string()));
    assert_eq!(bad_token(STPos::from_str("1..0 y")), Some("1..0".to_string()));
}

#[test]
fn box_reads_four_numerals_in_order() {
    let b = STBox::from_str("0 0 210 297").ok().unwrap();
    assert_eq!(b.x.as_str(), "0");
    assert_eq!(b.y.as_str(), "0");
    assert_eq!(b.w.as_str(), "210");
    assert_eq!(b.h.as_str(), "297");
    assert_eq!(b.to_text(), "0 0 210 297");
}

#[test]
fn box_rejects_wrong_token_counts_and_bad_numerals() {
    assert!(is_invalid(STBox::from_str("")));
    assert!(is_invalid(STBox::from_str("1 2 3")));
    assert!(is_invalid(STBox::from_str("1 2 3 4 5")));
    assert_eq!(bad_token(STBox::from_str("1 2 w 4")), Some("w".to_string()));
}

#[test]
fn path_of_start_move_line_close() {
    let p = STPath::from_str("S 0 0 M 10 10 L 20 20 C").ok().unwrap();
    let ops: Vec<(char, Vec<String>)> = p.elements.iter().map(op_of).collect();
    assert_eq!(
        ops,
        vec![
            ('S', strs(&["0", "0"])),
            ('M', strs(&["10", "10"])),
            ('L', strs(&["20", "20"])),
            ('C', vec![]),
        ]
    );
}

#[test]
fn path_quadratic_curve() {
    let p = STPath::from_str("Q 1 2 3 4").ok().unwrap();
    assert_eq!(p.elements.len(), 1);
    assert_eq!(op_of(&p.elements[0]), ('Q', strs(&["1", "2", "3", "4"])));
}

#[test]
fn path_quadratic_curve_missing_operand() {
    assert!(is_invalid(STPath::from_str("Q 1 2 3")));
}

#[test]
fn path_unknown_opcode() {
    assert!(is_invalid(STPath::from_str("Z")));
    assert!(is_invalid(STPath::from_str("S 0 0 SS 1 1")));
}

#[test]
fn path_cubic_and_arc() {
    let p = STPath::from_str("B 1 2 3 4 5 6 A 10 20 45 1 0 7 8").ok().unwrap();
    assert_eq!(op_of(&p.elements[0]), ('B', strs(&["1", "2", "3", "4", "5", "6"])));
    assert_eq!(op_of(&p.elements[1]), ('A', strs(&["10", "20", "45", "1", "0", "7", "8"])));
}

#[test]
fn path_empty_text_is_empty_path() {
    assert_eq!(STPath::from_str("").ok().unwrap().elements.len(), 0);
    assert_eq!(STPath::from_str(" \n\t ").ok().unwrap().elements.len(), 0);
}

#[test]
fn path_missing_operand_wins_over_bad_operand() {
    assert!(is_invalid(STPath::from_str("L x")));
    assert_eq!(bad_token(STPath::from_str("L x 1")), Some("x".to_string()));
    assert_eq!(bad_token(STPath::from_str("M 1 2 L 3 y")), Some("y".to_string()));
}

#[test]
fn deltas_expand_run_length_groups() {
    let d = STDeltas::from_str("g 3 5 2").ok().unwrap();
    assert_eq!(texts(&d.deltas), strs(&["5", "5", "5", "2"]));
}

#[test]
fn deltas_of_empty_text() {
    assert_eq!(STDeltas::from_str("").ok().unwrap().deltas.len(), 0);
}

#[test]
fn deltas_truncate_counts() {
    let d = STDeltas::from_str("1 g 2.9 4 g -1 8 g 0 9 g 0.5e1 3").ok().unwrap();
    assert_eq!(texts(&d.deltas), strs(&["1", "4", "4", "3", "3", "3", "3", "3"]));
}

#[test]
fn deltas_count_is_read_as_a_float() {
    let d = STDeltas::from_str("g 0.99999999999999999 5").ok().unwrap();
    assert_eq!(texts(&d.deltas), strs(&["5"]));
    let d = STDeltas::from_str("g 2.9999999999999999 5").ok().unwrap();
    assert_eq!(texts(&d.deltas), strs(&["5", "5", "5"]));
    let d = STDeltas::from_str("g 0.9999999999999999 5 1").ok().unwrap();
    assert_eq!(texts(&d.deltas), strs(&["1"]));
}

#[test]
fn deltas_errors() {
    assert!(is_invalid(STDeltas::from_str("g")));
    assert!(is_invalid(STDeltas::from_str("g 3")));
    assert_eq!(bad_token(STDeltas::from_str("g x 1")), Some("x".to_string()));
    assert_eq!(bad_token(STDeltas::from_str("g 2 y")), Some("y".to_string()));
    assert_eq!(bad_token(STDeltas::from_str("1 abc")), Some("abc".to_string()));
}

#[test]
fn numerals_accept_the_float_grammar() {
    for t in ["0", "-1", "+2.5", "1.", ".5", "1e5", "1E+5", "2.5e-3", "inf", "-Infinity", "NaN", "+nan"] {
        assert!(Numeral::parse(t).is_some(), "{}", t);
        assert!(t.parse::<f64>().is_ok(), "{}", t);
    }
    for t in ["", ".", "e5", "1e", "1e+", "+-1", "1.2.3", "0x10", "in", "nana", "1 2"] {
        assert!(Numeral::parse(t).is_none(), "{}", t);
        assert!(t.parse::<f64>().is_err(), "{}", t);
    }
}

#[test]
fn numeral_repeat_counts() {
    let count = |t: &str| Numeral::parse(t).unwrap().repeat_count();
    assert_eq!(count("3"), 3);
    assert_eq!(count("2.9"), 2);
    assert_eq!(count("-3"), 0);
    assert_eq!(count("-0.5"), 0);
    assert_eq!(count("nan"), 0);
    assert_eq!(count("inf"), 2147483647);
    assert_eq!(count("-inf"), 0);
    assert_eq!(count("1e10"), 2147483647);
    assert_eq!(count("12e-1"), 1);
    assert_eq!(count("0.05e2"), 5);
    assert_eq!(count("0.99999999999999999"), 1);
    assert_eq!(count("2.9999999999999999"), 3);
    assert_eq!(count("0.9999999999999999"), 0);
    assert_eq!(count("0.999999999999999944488848768742172978818416595458984375"), 1);
    assert_eq!(count("0.999999999999999944488848768742172978818416595458984374"), 0);
    assert_eq!(count("16777215.999999999068677425384521484375"), 16777216);
    assert_eq!(count("16777215.999999999068677425384521484374"), 16777215);
    assert_eq!(count("2147483646.9999999"), 2147483647);
    assert_eq!(count("2147483647"), 2147483647);
    assert_eq!(count("2147483648"), 2147483647);
    assert_eq!(count("1e99999999999999999999999"), 2147483647);
    assert_eq!(count("0e99999999999999999999999"), 0);
    assert_eq!(count("5e-99999999999999999999999"), 0);
    for t in [
        "3",
        "2.9",
        "-3",
        "12e-1",
        "0.05e2",
        "2147483648",
        "0.99999999999999999",
        "2.9999999999999999",
        "0.9999999999999999",
        "1.9999999999999999",
        "1.99999999999999988",
        "2147483646.9999999",
        "2147483645.99999999",
        "0.999999999999999944488848768742172978818416595458984375",
        "0.999999999999999944488848768742172978818416595458984374",
        "0.99999999999999994448884876874217297881841659545898437500001",
        "16777215.999999999068677425384521484375",
        "16777215.999999999068677425384521484374",
        "-0.99999999999999999",
        "9.99999999999999999e-1",
        "99999999999999999e-17",
    ] {
        assert_eq!(count(t) as i64, (t.parse::<f64>().unwrap() as i32).max(0) as i64, "{}", t);
    }
}

#[test]
fn parse_through_the_from_str_trait() {
    let p: STPos = "3 4".parse().ok().unwrap();
    assert_eq!(p.y.as_str(), "4");
    let b: STBox = "1 2 3 4".parse().ok().unwrap();
    assert_eq!(b.h.as_str(), "4");
    let path: STPath = "M 1 1 C".parse().ok().unwrap();
    assert_eq!(path.elements.len(), 2);
    let d: STDeltas = "g 2 1".parse().ok().unwrap();
    assert_eq!(texts(&d.deltas), strs(&["1", "1"]));
}
