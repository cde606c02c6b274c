use runtime::complex::Complex;

#[test]
fn test_new() {
    let c = Complex::new(3, 4);
    assert_eq!(c.real, 3);
    assert_eq!(c.imaginary, 4);
}

#[test]
fn test_add() {
    let mut c1 = Complex::new(3, 4);
    let c2 = Complex::new(1, 2);
    c1.add(&c2);
    assert_eq!(c1.real, 4);
    assert_eq!(c1.imaginary, 6);
}

#[test]
fn test_add_multiple() {
    let mut c1 = Complex::new(1, 1);
    let c2 = Complex::new(2, 2);
    let c3 = Complex::new(3, 3);
    c1.add(&c2);
    c1.add(&c3);
    assert_eq!(c1.real, 6);
    assert_eq!(c1.imaginary, 6);
}

#[test]
fn test_display() {
    let c = Complex::new(3, 4);
    assert_eq!(c.to_string(), "3 + 4i");
}

#[test]
fn test_display_with_large_numbers() {
    let c = Complex::new(12345, 67890);
    assert_eq!(c.to_string(), "12345 + 67890i");
}

#[test]
fn add_leaves_the_other_value_alone() {
    let mut c1 = Complex::new(10, 10);
    let c2 = Complex::new(5, 6);
    c1.add(&c2);
    assert_eq!(c1.real, 15);
    assert_eq!(c1.imaginary, 16);
    assert_eq!(c2.real, 5);
    assert_eq!(c2.imaginary, 6);
}

#[test]
fn add_reaches_the_largest_component() {
    let mut c1 = Complex::new(u32::MAX - 1, 0);
    let c2 = Complex::new(1, u32::MAX);
    c1.add(&c2);
    assert_eq!(c1.real, u32::MAX);
    assert_eq!(c1.imaginary, u32::MAX);
}

#[test]
fn add_of_zero_changes_nothing() {
    let mut c1 = Complex::new(8, 9);
    c1.add(&Complex::new(0, 0));
    assert_eq!(c1.real, 8);
    assert_eq!(c1.imaginary, 9);
}

#[test]
fn text_of_zero_and_of_the_largest_components() {
    assert_eq!(Complex::new(0, 0).to_string(), "0 + 0i");
    assert_eq!(
        Complex::new(u32::MAX, u32::MAX).to_string(),
        "4294967295 + 4294967295i"
    );
    assert_eq!(Complex::new(10, 100).to_string(), "10 + 100i");
}
