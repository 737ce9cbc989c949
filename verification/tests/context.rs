use expressur::{Context, Expressions, NameMap, Number};

fn number(mantissa: i128, scale: u32) -> Number {
    Number::new(mantissa, scale).unwrap()
}

fn parts(n: &Number) -> (i128, u32) {
    (n.mantissa(), n.scale())
}

#[test]
fn number_keeps_mantissa_and_scale() {
    let n = number(-12345678, 7);
    assert_eq!(n.mantissa(), -12345678);
    assert_eq!(n.scale(), 7);
    assert!(!n.is_zero());
    assert!(number(0, 3).is_zero());
}

#[test]
fn number_range_is_ninety_six_bits_and_twenty_eight_digits() {
    let max: i128 = 79228162514264337593543950335;
    assert!(Number::new(max, 0).is_some());
    assert!(Number::new(-max, 28).is_some());
    assert!(Number::new(max + 1, 0).is_none());
    assert!(Number::new(-max - 1, 0).is_none());
    assert!(Number::new(1, 28).is_some());
    assert!(Number::new(1, 29).is_none());
    assert!(Number::new(i128::MAX, 0).is_none());
    assert!(Number::new(i128::MIN, 0).is_none());
    assert!(Number::new(0, u32::MAX).is_none());
}

#[test]
fn truth_is_one_point_zero() {
    assert_eq!(parts(&Number::truth(true)), (10, 1));
    assert_eq!(parts(&Number::truth(false)), (0, 1));
}

#[test]
fn new_map_is_empty() {
    let map = Context::new();
    assert_eq!(map.len(), 0);
    assert!(map.get("a").is_none());
    assert!(!map.contains_key("a"));
}

#[test]
fn insert_binds_a_name() {
    let mut map = Context::new();
    map.insert("a".to_string(), number(1, 0));
    map.insert("b".to_string(), number(2, 0));
    assert_eq!(map.len(), 2);
    assert_eq!(map.get("a").map(parts), Some((1, 0)));
    assert_eq!(map.get("b").map(parts), Some((2, 0)));
    assert_eq!(map.find(&"b".to_string()).map(parts), Some((2, 0)));
    assert!(map.find(&"c".to_string()).is_none());
    assert!(map.contains_key("a"));
    assert!(!map.contains_key("A"));
    assert!(!map.contains_key(""));
}

#[test]
fn insert_replaces_the_value_of_a_bound_name() {
    let mut map = Context::new();
    map.insert("a".to_string(), number(1, 0));
    map.insert("b".to_string(), number(2, 0));
    map.insert("a".to_string(), number(3, 0));
    assert_eq!(map.len(), 2);
    assert_eq!(map.get("a").map(parts), Some((3, 0)));
    assert_eq!(map.name_at(0), "a");
    assert_eq!(map.name_at(1), "b");
    assert_eq!(parts(map.value_at(0)), (3, 0));
}

#[test]
fn entries_keep_their_order() {
    let mut map = Expressions::new();
    map.insert("z".to_string(), "1".to_string());
    map.insert("a".to_string(), "2".to_string());
    map.insert("m".to_string(), "3".to_string());
    assert_eq!(map.name_at(0), "z");
    assert_eq!(map.name_at(1), "a");
    assert_eq!(map.name_at(2), "m");
    assert_eq!(map.value_at(1), "2");
    assert_eq!(
        map.into_entries(),
        vec![
            ("z".to_string(), "1".to_string()),
            ("a".to_string(), "2".to_string()),
            ("m".to_string(), "3".to_string()),
        ]
    );
}

#[test]
fn extend_prefers_the_other_map() {
    let mut map = Context::new();
    map.insert("a".to_string(), number(1, 0));
    map.insert("b".to_string(), number(2, 0));
    let mut other = Context::new();
    other.insert("b".to_string(), number(20, 0));
    other.insert("c".to_string(), number(30, 0));
    map.extend(&other);
    assert_eq!(map.len(), 3);
    assert_eq!(map.get("a").map(parts), Some((1, 0)));
    assert_eq!(map.get("b").map(parts), Some((20, 0)));
    assert_eq!(map.get("c").map(parts), Some((30, 0)));
    assert_eq!(other.len(), 2);
}

#[test]
fn clone_is_independent() {
    let mut map: NameMap<Number> = NameMap::new();
    map.insert("a".to_string(), number(1, 0));
    let mut copy = map.clone();
    copy.insert("b".to_string(), number(2, 0));
    copy.insert("a".to_string(), number(9, 0));
    assert_eq!(map.len(), 1);
    assert_eq!(map.get("a").map(parts), Some((1, 0)));
    assert_eq!(copy.len(), 2);
    assert_eq!(copy.get("a").map(parts), Some((9, 0)));
}
