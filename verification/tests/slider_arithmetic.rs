use orbtk_core::slider::{
    adjust_max, adjust_min, adjust_val, calculate_thumb_x, calculate_thumb_x_from_val,
    calculate_val,
};

#[test]
fn test_calculate_thumb_x() {
    assert_eq!(0, calculate_thumb_x(-1000, 32, 0, 100));
    assert_eq!(0, calculate_thumb_x(0, 32, 0, 100));
    assert_eq!(18, calculate_thumb_x(50, 32, 0, 100));
    assert_eq!(36, calculate_thumb_x(68, 32, 0, 100));
    assert_eq!(68, calculate_thumb_x(100, 32, 0, 100));
    assert_eq!(68, calculate_thumb_x(1000, 32, 0, 100));
}

#[test]
fn test_calculate_val() {
    assert_eq!(0, calculate_val(0, 0, 100, 32, 100));
    assert_eq!(50, calculate_val(34, 0, 100, 32, 100));
    assert_eq!(100, calculate_val(68, 0, 100, 32, 100));
    assert_eq!(0, calculate_val(0, -50, 50, 32, 100));
    assert_eq!(50, calculate_val(34, -50, 50, 32, 100));
    assert_eq!(100, calculate_val(68, -50, 50, 32, 100));
}

#[test]
fn test_adjust_val() {
    assert_eq!(0, adjust_val(-10, 0, 100));
    assert_eq!(10, adjust_val(10, 0, 100));
    assert_eq!(100, adjust_val(500, 0, 100));
}

#[test]
fn test_adjust_min() {
    assert_eq!(0, adjust_min(0, 100));
    assert_eq!(5, adjust_min(5, 100));
    assert_eq!(100, adjust_min(500, 100));
}

#[test]
fn test_adjust_max() {
    assert_eq!(100, adjust_max(0, 100));
    assert_eq!(100, adjust_max(100, 5));
    assert_eq!(100, adjust_max(0, 100));
}

#[test]
fn test_calculate_thumb_x_from_val() {
    assert_eq!(0, calculate_thumb_x_from_val(0, 0, 100, 100, 32));
    assert_eq!(34, calculate_thumb_x_from_val(50, 0, 100, 100, 32));
    assert_eq!(68, calculate_thumb_x_from_val(100, 0, 100, 100, 32));
}
