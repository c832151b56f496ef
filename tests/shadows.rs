use flatlanders::{Cotangent, Data, ShadowError};

const DEN: u64 = 1 << 61;

/// An angle of 45 degrees: the cotangent is exactly 1.
const UNIT: Cotangent = Cotangent { num: 1, den: 1 };

fn cotangent_of(theta: i32) -> Cotangent {
    let tan = (theta as f64).to_radians().tan();
    Cotangent {
        num: (DEN as f64 / tan).round() as u64,
        den: DEN,
    }
}

fn scene(theta: i32, posts: &[(i32, i32)]) -> Data {
    let mut data = Data::new();
    data.set_degrees(theta).unwrap();
    for &(x, h) in posts {
        data.set_flatlander(x, h).unwrap();
    }
    data.sort();
    data
}

fn total(theta: i32, posts: &[(i32, i32)], cot: Cotangent) -> u128 {
    scene(theta, posts).calculate_total_shadow_length(cot)
}

#[test]
fn no_posts_cast_no_shadow() {
    for theta in [10, 45, 80] {
        assert_eq!(total(theta, &[], cotangent_of(theta)), 0);
    }
    assert_eq!(total(45, &[], UNIT), 0);
}

#[test]
fn single_post_at_45_degrees_casts_its_height() {
    assert_eq!(total(45, &[(1234, 77)], UNIT), 77);
    let cot = cotangent_of(45);
    let length = total(45, &[(1234, 77)], cot) as f64 / cot.den as f64;
    assert!((length - 77.0).abs() < 1e-9, "got {}", length);
}

#[test]
fn disjoint_shadows_add_up() {
    assert_eq!(total(45, &[(0, 10), (100, 20)], UNIT), 30);
    let cot = Cotangent { num: 3, den: 2 };
    // shadows [0, 30) and [200, 260) in halves
    assert_eq!(total(45, &[(100, 20), (0, 10)], cot), 30 + 60);
}

#[test]
fn nested_shadow_counts_once() {
    assert_eq!(total(45, &[(0, 100), (10, 10)], UNIT), 100);
    assert_eq!(total(45, &[(10, 10), (0, 100)], UNIT), 100);
    assert_eq!(total(45, &[(5, 10), (5, 10)], UNIT), 10);
}

#[test]
fn touching_shadows_merge() {
    assert_eq!(total(45, &[(0, 10), (10, 5)], UNIT), 15);
    assert_eq!(total(45, &[(0, 10), (11, 5)], UNIT), 15);
}

#[test]
fn order_of_posts_does_not_matter() {
    let posts = [(0, 100), (50, 150), (100, 200), (400, 3), (401, 1)];
    let expected = total(30, &posts, cotangent_of(30));
    let orders = [[4, 3, 2, 1, 0], [2, 0, 4, 1, 3], [1, 3, 0, 4, 2]];
    for order in orders {
        let permuted: Vec<(i32, i32)> = order.iter().map(|&i| posts[i]).collect();
        assert_eq!(total(30, &permuted, cotangent_of(30)), expected);
    }
}

#[test]
fn sort_is_stable() {
    let data = scene(45, &[(5, 3), (1, 9), (5, 1), (1, 2), (5, 2)]);
    let got: Vec<(i32, i32)> = data
        .get_flatlanders()
        .iter()
        .map(|f| (f.get_x(), f.get_h()))
        .collect();
    assert_eq!(got, vec![(1, 9), (1, 2), (5, 3), (5, 1), (5, 2)]);
}

#[test]
fn sort_handles_many_posts() {
    let mut data = Data::new();
    for i in 0..1000 {
        data.set_flatlander((i * 7919) % 1000, 1 + i % 3).unwrap();
    }
    data.sort();
    let posts = data.get_flatlanders();
    assert_eq!(posts.len(), 1000);
    for w in posts.windows(2) {
        assert!(w[0].get_x() <= w[1].get_x());
    }
}

#[test]
fn boundary_values_are_validated() {
    let mut data = Data::new();
    assert_eq!(
        data.set_flatlander(-1, 5),
        Err(ShadowError::InvalidPositionOrHeight { value: -1 })
    );
    assert_eq!(
        data.set_flatlander(300001, 5),
        Err(ShadowError::InvalidPositionOrHeight { value: 300001 })
    );
    assert_eq!(
        data.set_flatlander(5, 0),
        Err(ShadowError::InvalidPositionOrHeight { value: 0 })
    );
    assert_eq!(
        data.set_flatlander(5, 1001),
        Err(ShadowError::InvalidPositionOrHeight { value: 1001 })
    );
    assert!(data.get_flatlanders().is_empty());
    assert_eq!(data.set_degrees(9), Err(ShadowError::InvalidAngle { value: 9 }));
    assert_eq!(data.set_degrees(81), Err(ShadowError::InvalidAngle { value: 81 }));
    assert_eq!(data.get_theta(), 0);
    assert_eq!(data.set_flatlander(0, 1), Ok(()));
    assert_eq!(data.set_flatlander(300000, 1000), Ok(()));
    assert_eq!(data.set_degrees(10), Ok(()));
    assert_eq!(data.set_degrees(80), Ok(()));
    assert_eq!(data.get_theta(), 80);
    assert_eq!(data.get_flatlanders().len(), 2);
}

#[test]
fn scenario_one_post() {
    assert_eq!(total(45, &[(0, 10)], UNIT), 10);
}

#[test]
fn scenario_two_overlapping_posts() {
    assert_eq!(total(45, &[(0, 10), (5, 10)], UNIT), 15);
}

#[test]
fn scenario_three_posts_at_30_degrees() {
    let cot = cotangent_of(30);
    let length = total(30, &[(0, 100), (50, 150), (100, 200)], cot) as f64 / cot.den as f64;
    assert!((length - 446.4101615137755).abs() < 1e-4, "got {}", length);
}

#[test]
fn scenario_three_posts_at_45_degrees() {
    assert_eq!(total(45, &[(0, 100), (50, 150), (100, 200)], UNIT), 300);
}

#[test]
fn largest_scene_does_not_overflow() {
    let cot = Cotangent { num: u64::MAX, den: u64::MAX };
    let length = total(10, &[(0, 1000), (300000, 1000)], cot);
    assert_eq!(length, 2000 * u64::MAX as u128);
}
