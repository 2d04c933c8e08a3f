use weierstrass::errors::FieldElementError;
use weierstrass::finite_field_element::FiniteFieldElement;

#[test]
fn test_add_two_finite_field_elements() {
    let first_field_element = FiniteFieldElement::<11>::from(1);
    let second_field_element = FiniteFieldElement::<11>::from(20);

    assert_eq!(
        first_field_element + second_field_element,
        FiniteFieldElement::<11>::from(10)
    );
}

#[test]
fn test_sub_two_finite_field_elements() {
    let first_field_element = FiniteFieldElement::<11>::from(1);
    let second_field_element = FiniteFieldElement::<11>::from(20);

    assert_eq!(
        first_field_element - second_field_element,
        FiniteFieldElement::<11>::from(3)
    );
}

#[test]
fn test_mul_two_finite_field_elements() {
    let first_field_element = FiniteFieldElement::<11>::from(1);
    let second_field_element = FiniteFieldElement::<11>::from(20);

    assert_eq!(
        first_field_element * second_field_element,
        FiniteFieldElement::<11>::from(9)
    );
}

#[test]
fn test_pow_a_finite_field_with_a_number() {
    let first_field_element = FiniteFieldElement::<11>::from(3);

    assert_eq!(
        first_field_element.pow(3),
        FiniteFieldElement::<11>::from(5)
    );
}

#[test]
fn test_div_two_finite_field_elements() {
    let first_field_element = FiniteFieldElement::<11>::from(1);
    let second_field_element = FiniteFieldElement::<11>::from(20);

    assert_eq!(
        first_field_element / second_field_element,
        FiniteFieldElement::<11>::from(5)
    );
}

#[test]
fn test_from_canonicalizes_raw_values() {
    assert_eq!(FiniteFieldElement::<11>::from(20).value, 9);
    assert_eq!(FiniteFieldElement::<11>::from(-1).value, 10);
    assert_eq!(FiniteFieldElement::<11>::from(11).value, 0);
}

#[test]
fn test_addition_matches_integer_sum_modulo_p() {
    for a in 0..11i128 {
        for b in 0..11i128 {
            assert_eq!(
                FiniteFieldElement::<11>::from(a) + FiniteFieldElement::<11>::from(b),
                FiniteFieldElement::<11>::from((a + b) % 11)
            );
            assert_eq!(
                FiniteFieldElement::<11>::from(a) - FiniteFieldElement::<11>::from(b),
                FiniteFieldElement::<11>::from((a - b).rem_euclid(11))
            );
            assert_eq!(
                FiniteFieldElement::<11>::from(a) * FiniteFieldElement::<11>::from(b),
                FiniteFieldElement::<11>::from((a * b) % 11)
            );
        }
    }
}

#[test]
fn test_element_divided_by_itself_is_one() {
    for a in 1..11i128 {
        let element = FiniteFieldElement::<11>::from(a);
        let same = FiniteFieldElement::<11>::from(a);
        assert_eq!(element / same, FiniteFieldElement::<11>::from(1));
    }
}

#[test]
fn test_pow_group_order_returns_one() {
    for a in 1..11i128 {
        let element = FiniteFieldElement::<11>::from(a);
        assert_eq!(element.pow(10), FiniteFieldElement::<11>::from(1));
    }
}

#[test]
fn test_pow_reduces_exponent_modulo_group_order() {
    let element = FiniteFieldElement::<11>::from(3);
    assert_eq!(element.pow(13), FiniteFieldElement::<11>::from(5));
}

#[test]
fn test_pow_negative_exponent_gives_inverse() {
    let element = FiniteFieldElement::<11>::from(3);
    assert_eq!(element.pow(-1), FiniteFieldElement::<11>::from(4));
}

#[test]
fn test_division_by_zero_fails() {
    let numerator = FiniteFieldElement::<11>::from(5);
    let zero = FiniteFieldElement::<11>::from(0);
    assert_eq!(
        numerator.checked_div(zero),
        Err(FieldElementError::DivisionByZero)
    );
}

#[test]
fn test_checked_div_matches_division() {
    let numerator = FiniteFieldElement::<11>::from(1);
    let denominator = FiniteFieldElement::<11>::from(20);
    assert_eq!(
        numerator.checked_div(denominator),
        Ok(FiniteFieldElement::<11>::from(5))
    );
}
