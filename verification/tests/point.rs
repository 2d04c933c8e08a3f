use weierstrass::errors::PointError;
use weierstrass::point::Point;

#[test]
fn test00_create_valid_point() {
    assert!(Point::<5, 7>::new(Some(-1), Some(-1)).is_ok());
}

#[test]
fn test01_create_invalid_point() {
    assert!(Point::<5, 7>::new(Some(-1), Some(-2)).is_err());
}

#[test]
fn test02_points_with_same_cords_are_equal() {
    let point1 = Point::<5, 7>::new(Some(-1), Some(-1)).unwrap();
    let point2 = Point::<5, 7>::new(Some(-1), Some(-1)).unwrap();

    assert_eq!(point1, point2);
}

#[test]
fn test03_points_with_different_cords_are_different() {
    let point1 = Point::<5, 7>::new(Some(-1), Some(-1)).unwrap();
    let point2 = Point::<5, 7>::new(Some(18), Some(77)).unwrap();

    assert_ne!(point1, point2);
}

#[test]
fn test04_sum_inifity_and_another_point_returns_the_point() {
    let infinity = Point::<5, 7>::point_at_infinity();
    let point = Point::<5, 7>::new(Some(-1), Some(-1)).unwrap();

    assert_eq!(point + infinity, point);
    assert_eq!(infinity + point, point);
}

#[test]
fn test05_two_different_points_from_the_same_curve_can_be_added() {
    let point1 = Point::<5, 7>::new(Some(2), Some(5)).unwrap();
    let point2 = Point::<5, 7>::new(Some(-1), Some(-1)).unwrap();
    let expected_point3 = Point::<5, 7>::new(Some(3), Some(-7)).unwrap();

    assert_eq!(point1 + point2, expected_point3);
    assert_eq!(point2 + point1, expected_point3);
}

#[test]
fn test06_adding_the_same_point_results_infinity() {
    let point1 = Point::<5, 7>::new(Some(-1), Some(-1)).unwrap();
    let point2 = Point::<5, 7>::new(Some(-1), Some(1)).unwrap();

    let expected_point3 = Point::<5, 7>::point_at_infinity();

    assert_eq!(point1 + point2, expected_point3);
}

#[test]
fn test_doubling_a_point_follows_the_tangent() {
    let point = Point::<5, 7>::new(Some(-1), Some(-1)).unwrap();
    let expected = Point::<5, 7>::new(Some(18), Some(77)).unwrap();

    assert_eq!(point + point, expected);
}

#[test]
fn test_doubling_a_point_with_zero_y_returns_infinity() {
    // (0, 0) lies on y^2 = x^3; its tangent there is vertical.
    let point = Point::<0, 0>::new(Some(0), Some(0)).unwrap();

    assert_eq!(point + point, Point::<0, 0>::point_at_infinity());
}

#[test]
fn test_adding_infinity_to_infinity_returns_infinity() {
    let infinity = Point::<5, 7>::point_at_infinity();

    assert_eq!(infinity + infinity, Point::<5, 7>::point_at_infinity());
}

#[test]
fn test_half_specified_point_is_invalid() {
    assert_eq!(
        Point::<5, 7>::new(Some(-1), None),
        Err(PointError::InvalidPoint)
    );
    assert_eq!(
        Point::<5, 7>::new(None, Some(-1)),
        Err(PointError::InvalidPoint)
    );
}

#[test]
fn test_off_curve_point_reports_not_on_curve() {
    assert_eq!(
        Point::<5, 7>::new(Some(-1), Some(-2)),
        Err(PointError::NotOnCurve)
    );
}

#[test]
fn test_point_at_infinity_equals_fully_absent_construction() {
    let built = Point::<5, 7>::new(None, None).unwrap();

    assert_eq!(built, Point::<5, 7>::point_at_infinity());
}
