use puyosim::calc::CalculatorInternal;
use puyosim::calc::add_internal;
use puyosim::calc::greet_internal;

#[test]
fn test_greet_with_name() {
    let result = greet_internal("World");
    assert_eq!(result, "Hello, World! from Rust WebAssembly");
}

#[test]
fn test_greet_with_empty_string() {
    let result = greet_internal("");
    assert_eq!(result, "Hello, ! from Rust WebAssembly");
}

#[test]
fn test_greet_with_japanese() {
    let result = greet_internal("太郎");
    assert_eq!(result, "Hello, 太郎! from Rust WebAssembly");
}

#[test]
fn test_add_positive_numbers() {
    assert_eq!(add_internal(2, 3), 5);
    assert_eq!(add_internal(10, 20), 30);
}

#[test]
fn test_add_negative_numbers() {
    assert_eq!(add_internal(-5, 3), -2);
    assert_eq!(add_internal(-10, -20), -30);
}

#[test]
fn test_add_with_zero() {
    assert_eq!(add_internal(0, 5), 5);
    assert_eq!(add_internal(5, 0), 5);
    assert_eq!(add_internal(0, 0), 0);
}

#[test]
fn test_calculator_new() {
    let calc = CalculatorInternal::new();
    assert_eq!(calc.get_value(), 0);
}

#[test]
fn test_calculator_add() {
    let mut calc = CalculatorInternal::new();
    calc.add(10);
    assert_eq!(calc.get_value(), 10);

    calc.add(20);
    assert_eq!(calc.get_value(), 30);
}

#[test]
fn test_calculator_add_negative() {
    let mut calc = CalculatorInternal::new();
    calc.add(-5);
    assert_eq!(calc.get_value(), -5);

    calc.add(10);
    assert_eq!(calc.get_value(), 5);
}

#[test]
fn test_calculator_multiple_operations() {
    let mut calc = CalculatorInternal::new();
    calc.add(100);
    calc.add(-30);
    calc.add(50);
    assert_eq!(calc.get_value(), 120);
}

#[test]
fn test_greet_and_add_integration() {
    let name = "Calculator";
    let greeting = greet_internal(name);

    assert_eq!(greeting, "Hello, Calculator! from Rust WebAssembly");

    let result1 = add_internal(5, 10);
    let result2 = add_internal(result1, 15);

    assert_eq!(result1, 15);
    assert_eq!(result2, 30);
}

#[test]
fn test_calculator_with_add_function_integration() {
    let mut calc = CalculatorInternal::new();

    let value1 = add_internal(10, 20);
    let value2 = add_internal(5, 15);

    calc.add(value1);
    calc.add(value2);

    assert_eq!(calc.get_value(), 50);
}

#[test]
fn test_calculator_operations_sequence() {
    let mut calc1 = CalculatorInternal::new();
    let mut calc2 = CalculatorInternal::new();

    calc1.add(100);
    calc1.add(-30);

    calc2.add(50);
    calc2.add(20);

    let final_result = add_internal(calc1.get_value(), calc2.get_value());

    assert_eq!(calc1.get_value(), 70);
    assert_eq!(calc2.get_value(), 70);
    assert_eq!(final_result, 140);
}

#[test]
fn test_greet_with_calculator_values() {
    let mut calc = CalculatorInternal::new();
    calc.add(42);

    let value = calc.get_value();
    let name = format!("User{}", value);
    let greeting = greet_internal(&name);

    assert_eq!(greeting, "Hello, User42! from Rust WebAssembly");
}

#[test]
fn test_multiple_calculators_interaction() {
    let mut calc_a = CalculatorInternal::new();
    let mut calc_b = CalculatorInternal::new();
    let mut calc_c = CalculatorInternal::new();

    calc_a.add(10);
    calc_b.add(calc_a.get_value());
    calc_b.add(5);

    let sum = add_internal(calc_a.get_value(), calc_b.get_value());
    calc_c.add(sum);

    assert_eq!(calc_a.get_value(), 10);
    assert_eq!(calc_b.get_value(), 15);
    assert_eq!(calc_c.get_value(), 25);
}
