use flatlanders::{Cotangent, Flatlander, ShadowError};

/// The cotangent for a tangent given to five decimal places.
fn cotangent_from_tangent(tan: f64) -> Cotangent {
    Cotangent {
        num: 100_000,
        den: (tan * 100_000.0).round() as u64,
    }
}

fn shadow_length(flatlander: &Flatlander, tan: f64) -> f64 {
    let cot = cotangent_from_tangent(tan);
    flatlander.calculate_shadow_length(cot) as f64 / cot.den as f64
}

#[test]
fn flatlander_test_new() {
    let x = 0;
    let h = 10;

    match Flatlander::new(x, h) {
        Ok(flatlander) => {
            assert_eq!(
                flatlander.get_x(),
                x,
                "Error in new flatlander assert equals x"
            );
            assert_eq!(
                flatlander.get_h(),
                h,
                "Error in new flatlander assert equals h"
            )
        }
        Err(_) => panic!("Error in new flatlander"),
    }
}

#[test]
fn test_calculate_shadow_length1() {
    let x = 0;
    let h = 10;

    match Flatlander::new(x, h) {
        Ok(flatlander) => {
            let epsilon = 1e-4;

            // 45 degrees
            let tan1 = 1.0;
            let expected1 = 10.0;
            let actual1 = shadow_length(&flatlander, tan1);
            assert!(
                (expected1 - actual1).abs() < epsilon,
                "Error in calculate shadow length expected {}, got {}",
                expected1,
                actual1
            );
        }
        Err(_) => panic!("Error in new flatlander"),
    }
}

#[test]
fn test_calculate_shadow_length2() {
    let x = 0;
    let h = 10;

    match Flatlander::new(x, h) {
        Ok(flatlander) => {
            let epsilon = 1e-4;

            // 30 degrees
            let tan2 = 0.57735;
            let expected2 = 17.32050;
            let actual2 = shadow_length(&flatlander, tan2);
            assert!(
                (expected2 - actual2).abs() < epsilon,
                "Error in calculate shadow length expected {}, got {}",
                expected2,
                actual2
            );
        }
        Err(_) => panic!("Error in new flatlander"),
    }
}

#[test]
fn test_calculate_shadow_length3() {
    let x = 0;
    let h = 10;

    match Flatlander::new(x, h) {
        Ok(flatlander) => {
            let epsilon = 1e-4;

            // 70 degrees
            let tan3 = 2.74747;
            let expected3 = 3.63970;
            let actual3 = shadow_length(&flatlander, tan3);
            assert!(
                (expected3 - actual3).abs() < epsilon,
                "Error in calculate shadow length expected {}, got {}",
                expected3,
                actual3
            )
        }
        Err(_) => panic!("Error in new flatlander"),
    }
}

#[test]
fn test_new_invalid_x_less_than_0() {
    let x = -1;
    let h = 10;

    match Flatlander::new(x, h) {
        Ok(_) => panic!("Should have returned an error"),
        Err(e) => match e {
            ShadowError::InvalidPositionOrHeight { value } => assert_eq!(value, x),
            _ => panic!("Incorrect error type"),
        },
    }
}

#[test]
fn test_new_invalid_x_greater_than_300000() {
    let x = 300001;
    let h = 10;

    match Flatlander::new(x, h) {
        Ok(_) => panic!("Should have returned an error"),
        Err(e) => match e {
            ShadowError::InvalidPositionOrHeight { value } => assert_eq!(value, x),
            _ => panic!("Incorrect error type"),
        },
    }
}

#[test]
fn test_new_invalid_h_less_than_1() {
    let x = 10;
    let h = 0;

    match Flatlander::new(x, h) {
        Ok(_) => panic!("Should have returned an error"),
        Err(e) => match e {
            ShadowError::InvalidPositionOrHeight { value } => assert_eq!(value, h),
            _ => panic!("Incorrect error type"),
        },
    }
}

#[test]
fn test_new_invalid_h_greater_than_1000() {
    let x = 10;
    let h = 1001;

    match Flatlander::new(x, h) {
        Ok(_) => panic!("Should have returned an error"),
        Err(e) => match e {
            ShadowError::InvalidPositionOrHeight { value } => assert_eq!(value, h),
            _ => panic!("Incorrect error type"),
        },
    }
}

#[test]
fn shadow_length_is_height_times_cotangent() {
    let flatlander = Flatlander::new(3, 7).unwrap();
    let cot = Cotangent { num: 5, den: 2 };
    assert_eq!(flatlander.calculate_shadow_length(cot), 35);
}

#[test]
fn post_bounds_are_inclusive() {
    assert!(Flatlander::new(0, 1).is_ok());
    assert!(Flatlander::new(300000, 1000).is_ok());
}

#[test]
fn position_is_checked_before_height() {
    assert_eq!(
        Flatlander::new(-5, 0),
        Err(ShadowError::InvalidPositionOrHeight { value: -5 })
    );
}
