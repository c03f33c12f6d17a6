use rucompart::service::{push_decimal, SomeCompartment, SomeCompartmentService};
use rucompart::text::to_ascii_upper_char;

#[test]
fn hello_names_the_caller_and_the_pid() {
    assert_eq!(
        SomeCompartmentService.hello("world".to_string(), 1234),
        "Hello world! The compartment's pid is 1234"
    );
}

#[test]
fn hello_with_edge_pids() {
    assert_eq!(SomeCompartmentService.hello(String::new(), 0), "Hello ! The compartment's pid is 0");
    assert_eq!(
        SomeCompartmentService.hello("é".to_string(), -7),
        "Hello é! The compartment's pid is -7"
    );
    assert_eq!(
        SomeCompartmentService.hello("x".to_string(), i32::MIN),
        "Hello x! The compartment's pid is -2147483648"
    );
    assert_eq!(
        SomeCompartmentService.hello("x".to_string(), i32::MAX),
        "Hello x! The compartment's pid is 2147483647"
    );
}

#[test]
fn decimal_matches_display() {
    for n in [0i64, 1, 9, 10, 99, 100, 305, -1, -10, i64::MAX, i64::MIN, 1_000_000_007] {
        let mut s = String::from("#");
        push_decimal(&mut s, n);
        assert_eq!(s, format!("#{n}"));
    }
}

#[test]
fn upper_char_matches_std() {
    for c in ['a', 'z', 'A', 'm', '0', '_', '-', 'é', '{', '`'] {
        assert_eq!(to_ascii_upper_char(c), c.to_ascii_uppercase());
    }
}
