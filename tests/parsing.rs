use kirchhoff::parse::{element_from_fields, get_circuit, parse_decimal, parse_int};
use kirchhoff::structure::Element;

fn groups(t: &str, i: &str, v: &str, a: &str, b: &str) -> Vec<Option<String>> {
    vec![
        Some(String::from("whole")),
        Some(t.to_string()),
        Some(i.to_string()),
        Some(v.to_string()),
        Some(a.to_string()),
        Some(b.to_string()),
    ]
}

#[test]
fn decimals_are_exact() {
    let x = parse_decimal("4.7").unwrap();
    assert_eq!((x.num, x.den), (47, 10));
    let x = parse_decimal(".5").unwrap();
    assert_eq!((x.num, x.den), (5, 10));
    let x = parse_decimal("10").unwrap();
    assert_eq!((x.num, x.den), (10, 1));
    let x = parse_decimal("5.").unwrap();
    assert_eq!((x.num, x.den), (5, 1));
}

#[test]
fn bad_decimals_are_refused() {
    assert!(parse_decimal("").is_none());
    assert!(parse_decimal(".").is_none());
    assert!(parse_decimal("1.2.3").is_none());
    assert!(parse_decimal("1a").is_none());
    assert!(parse_decimal("1234567890123456789").is_none());
    assert!(parse_decimal("123456789012345678").is_some());
}

#[test]
fn integers() {
    assert_eq!(parse_int("42"), Some(42));
    assert_eq!(parse_int("007"), Some(7));
    assert_eq!(parse_int(""), None);
    assert_eq!(parse_int("1.5"), None);
    assert_eq!(parse_int("2147483647"), Some(2147483647));
    assert_eq!(parse_int("0000000000012"), Some(12));
    assert_eq!(parse_int("2147483648"), None);
}

#[test]
fn fields_decode_each_kind() {
    let r = element_from_fields(&groups("R", "1", "2", "1", "2")).unwrap();
    assert!(matches!(r.0, Element::R(v) if v.num == 2 && v.den == 1));
    assert_eq!(r.1, (1, 2));
    assert_eq!(r.2, 1);
    let c = element_from_fields(&groups("C", "3", "0.5", "2", "3")).unwrap();
    assert!(matches!(c.0, Element::C(v) if v.num == 5 && v.den == 10));
    let v = element_from_fields(&groups("V", "2", "5", "2", "1")).unwrap();
    assert!(matches!(v.0, Element::V(_)));
}

#[test]
fn fields_refuse_bad_records() {
    assert!(element_from_fields(&groups("L", "1", "2", "1", "2")).is_none());
    assert!(element_from_fields(&groups("C", "1", "0", "1", "2")).is_none());
    assert!(element_from_fields(&groups("R", "1", "2", "0", "2")).is_none());
    assert!(element_from_fields(&groups("R", "", "2", "1", "2")).is_none());
    assert!(element_from_fields(&vec![Some(String::from("x"))]).is_none());
    let mut g = groups("R", "1", "2", "1", "2");
    g[3] = None;
    assert!(element_from_fields(&g).is_none());
}

#[test]
fn circuit_text_is_read_line_by_line() {
    let c = get_circuit(String::from("R1(2) : 1,2\nV1(5) : 2,1")).unwrap();
    assert_eq!(c.elements.len(), 2);
    assert!(matches!(c.elements[0], Element::R(v) if v.num == 2));
    assert!(matches!(c.elements[1], Element::V(v) if v.num == 5));
    assert_eq!(c.connections, vec![(1, 2), (2, 1)]);
    assert_eq!(c.labels, vec![1, 1]);
}

#[test]
fn circuit_text_with_bad_line_is_refused() {
    assert!(get_circuit(String::from("R1(2) : 1,2\nnonsense")).is_none());
    assert!(get_circuit(String::from("R1(2) : 1,2\n")).is_none());
    assert!(get_circuit(String::from("X1(2) : 1,2")).is_none());
    assert!(get_circuit(String::from("R1(2) 1,2")).is_none());
    assert!(get_circuit(String::from("R1() : 1,2")).is_none());
}

#[test]
fn capacitor_line_with_decimal_value() {
    let c = get_circuit(String::from("C3(0.5) : 2,3")).unwrap();
    assert!(matches!(c.elements[0], Element::C(v) if v.num == 5 && v.den == 10));
    assert_eq!(c.connections, vec![(2, 3)]);
    assert_eq!(c.labels, vec![3]);
}

#[test]
fn labels_come_from_their_own_lines() {
    let c = get_circuit(String::from("R1(2) : 1,2\nV2(5) : 2,1")).unwrap();
    assert_eq!(c.labels, vec![1, 2]);
    assert_eq!(c.connections, vec![(1, 2), (2, 1)]);
}
