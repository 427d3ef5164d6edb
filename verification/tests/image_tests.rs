use relvar::image::{apply_kernel, load, save, KernelTap};
use relvar::relation::{Relation, Row, ScalarValue};

fn int_at(v: &ScalarValue) -> i64 {
    match v {
        ScalarValue::Int(i) => *i,
        _ => panic!("not an integer"),
    }
}

// Tuples hold (b, g, r, x, y).
fn at(rel: &Relation, x: i64, y: i64) -> Option<&Row> {
    rel.tuples.iter().find(|t| int_at(&t.values[3]) == x && int_at(&t.values[4]) == y)
}

#[test]
fn test_load_save_identity() {
    let width = 2;
    let height = 2;
    let data: Vec<u8> = vec![255, 0, 0, 0, 255, 0, 0, 0, 255, 255, 255, 255];
    let relation = load(width, height, &data);
    assert_eq!(relation.cardinality(), 4);
    let (w, h, saved_data) = save(&relation);
    assert_eq!(w, width);
    assert_eq!(h, height);
    assert_eq!(saved_data, data);
}

#[test]
fn test_box_blur() {
    let width = 3;
    let height = 3;
    let mut data = vec![0u8; width * height * 3];
    let center_idx = (width + 1) * 3;
    data[center_idx] = 255;
    data[center_idx + 1] = 255;
    data[center_idx + 2] = 255;
    let relation = load(width, height, &data);
    let mut kernel = Vec::new();
    for dy in -1..=1 {
        for dx in -1..=1 {
            kernel.push(KernelTap { dx, dy, weight: 1 });
        }
    }
    let blurred = apply_kernel(&relation, &kernel);
    let mut count = 0;
    for t in blurred.tuples.iter() {
        let x = int_at(&t.values[3]);
        let y = int_at(&t.values[4]);
        if x >= 0 && x < width as i64 && y >= 0 && y < height as i64 {
            count += 1;
            assert_eq!(int_at(&t.values[2]), 28, "Pixel at ({}, {}) should be 255/9 = 28", x, y);
        }
    }
    assert_eq!(count, 9, "Should have 9 pixels in the 3x3 grid");
}

#[test]
fn test_shift() {
    let width = 2;
    let height = 2;
    let mut data = vec![0u8; width * height * 3];
    data[0] = 255;
    data[1] = 255;
    data[2] = 255;
    let relation = load(width, height, &data);
    let kernel = vec![KernelTap { dx: 1, dy: 0, weight: 1 }];
    let shifted = apply_kernel(&relation, &kernel);
    let t = at(&shifted, 1, 0).unwrap();
    assert_eq!(int_at(&t.values[2]), 255);
}

#[test]
fn test_load_short_buffer_and_too_large() {
    let data: Vec<u8> = vec![1, 2, 3, 4, 5];
    let relation = load(2, 1, &data);
    assert_eq!(relation.cardinality(), 1);
    let t = at(&relation, 0, 0).unwrap();
    assert_eq!(t.values, vec![ScalarValue::Int(3), ScalarValue::Int(2), ScalarValue::Int(1), ScalarValue::Int(0), ScalarValue::Int(0)]);
    assert_eq!(load(100_000, 1_000, &data).cardinality(), 0);
}

#[test]
fn test_save_empty_and_clamped() {
    let relation = load(0, 0, &vec![]);
    assert_eq!(save(&relation), (0, 0, vec![]));
    // Weights that scale colours beyond a byte are clamped on saving.
    let relation = load(1, 1, &vec![200, 100, 0]);
    let doubled = apply_kernel(&relation, &vec![KernelTap { dx: 0, dy: 0, weight: 2 }, KernelTap { dx: 0, dy: 0, weight: -1 }]);
    let (w, h, data) = save(&doubled);
    assert_eq!((w, h), (1, 1));
    assert_eq!(data, vec![200, 100, 0]);
}

#[test]
fn test_kernel_zero_weight_keeps_image() {
    let relation = load(1, 1, &vec![9, 8, 7]);
    let same = apply_kernel(&relation, &vec![KernelTap { dx: 3, dy: 3, weight: 0 }]);
    assert_eq!(same.cardinality(), 1);
    assert!(at(&same, 0, 0).is_some());
    let empty_kernel = apply_kernel(&relation, &vec![]);
    assert!(at(&empty_kernel, 0, 0).is_some());
}

#[test]
fn test_kernel_negative_division_truncates() {
    // Total weight -2: at (0, 0) the sum 7 gives 7 / -2 = -3 and at (1, 0)
    // the sum -21 gives 10, both rounded toward zero.
    let relation = load(1, 1, &vec![7, 7, 7]);
    let k = vec![KernelTap { dx: 0, dy: 0, weight: 1 }, KernelTap { dx: 1, dy: 0, weight: -3 }];
    let out = apply_kernel(&relation, &k);
    assert_eq!(int_at(&at(&out, 0, 0).unwrap().values[2]), -3);
    assert_eq!(int_at(&at(&out, 1, 0).unwrap().values[2]), 10);
}

#[test]
fn test_load_gives_one_tuple_per_pixel() {
    let data: Vec<u8> = (0..(4 * 3 * 3) as u8).collect();
    let relation = load(4, 3, &data);
    assert_eq!(relation.cardinality(), 12);
    assert_eq!(save(&relation), (4, 3, data));
}
