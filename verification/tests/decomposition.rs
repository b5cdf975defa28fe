use spatial_decomposition::{Cuboid, Error, Rat, Rectangle, kmr_decompose};

fn rect(x0: i64, y0: i64, x1: i64, y1: i64) -> Rectangle {
    Rectangle {
        min: [Rat::from_int(x0), Rat::from_int(y0)],
        max: [Rat::from_int(x1), Rat::from_int(y1)],
    }
}

fn rect_q(min: [(i64, i64); 2], max: [(i64, i64); 2]) -> Rectangle {
    Rectangle {
        min: [Rat::new(min[0].0, min[0].1), Rat::new(min[1].0, min[1].1)],
        max: [Rat::new(max[0].0, max[0].1), Rat::new(max[1].0, max[1].1)],
    }
}

fn rect_eq(a: &Rectangle, b: &Rectangle) -> bool {
    a.min[0].eq_val(&b.min[0])
        && a.min[1].eq_val(&b.min[1])
        && a.max[0].eq_val(&b.max[0])
        && a.max[1].eq_val(&b.max[1])
}

fn holds(rects: &[Rectangle], expected: &Rectangle) -> bool {
    rects.iter().any(|r| rect_eq(r, expected))
}

#[test]
fn kmr_decompose_identity() {
    let rectangle = rect(0, 0, 10, 10);
    let rects = kmr_decompose(&rectangle, 1).unwrap();
    assert_eq!(rects.len(), 1);
    assert_eq!(rects[0], rectangle);
}

#[test]
fn kmr_decompose_very_wide() {
    let rectangle = rect(0, 0, 100, 10);
    let rects = kmr_decompose(&rectangle, 4).unwrap();
    assert_eq!(rects.len(), 4);
    assert!(rect_eq(&rects[0], &rect(0, 0, 25, 10)));
    assert!(rect_eq(&rects[1], &rect(25, 0, 50, 10)));
    assert!(rect_eq(&rects[2], &rect(50, 0, 75, 10)));
    assert!(rect_eq(&rects[3], &rect(75, 0, 100, 10)));
}

#[test]
fn kmr_decompose_very_long() {
    let rectangle = rect(-10, -200, 10, 200);
    let rects = kmr_decompose(&rectangle, 10).unwrap();
    let dx = rectangle.max[1].sub(&rectangle.min[1]).div_int(10);
    for (n, r) in rects.into_iter().enumerate() {
        let expected = Cuboid {
            min: [rectangle.min[0], rectangle.min[1].add(&dx.mul_int(n as u64))],
            max: [rectangle.max[0], rectangle.min[1].add(&dx.mul_int(n as u64 + 1))],
        };
        assert!(rect_eq(&r, &expected));
    }
}

#[test]
fn kmr_decompose_5x3_in_7() {
    let rectangle = rect(0, 0, 5, 3);
    let rects = kmr_decompose(&rectangle, 7).unwrap();
    assert_eq!(rects.len(), 7);

    for i in 0..4 {
        // Four cells of width 5/4 spanning the lower band of height 3/2.
        assert!(holds(
            &rects,
            &rect_q([(5 * i, 4), (0, 1)], [(5 * (i + 1), 4), (3, 2)]),
        ));
    }
    for i in 0..3 {
        // Three cells of width 5/3 spanning the upper band.
        assert!(holds(
            &rects,
            &rect_q([(5 * i, 3), (3, 2)], [(5 * (i + 1), 3), (3, 1)]),
        ));
    }
}

#[test]
fn kmr_decompose_6x6_in_14() {
    let rectangle = rect(-60, 0, 0, 60);
    let rects = kmr_decompose(&rectangle, 14).unwrap();
    assert_eq!(rects.len(), 14);
    for i in 0..5i64 {
        for j in 0..2i64 {
            let dx = 60 / 5;
            let dy = 60 / 3;
            let r = rect(i * dx - 60, j * dy, (i + 1) * dx - 60, (j + 1) * dy);
            assert!(holds(&rects, &r));
        }
    }
    for i in 0..4i64 {
        let j = 2;
        let dx = 60 / 4;
        let dy = 60 / 3;
        let r = rect(i * dx - 60, j * dy, (i + 1) * dx - 60, (j + 1) * dy);
        assert!(holds(&rects, &r));
    }
}

#[test]
fn kmr_decompose_square_into_4() {
    let rectangle = rect(-40, -40, -20, -20);
    let rects = kmr_decompose(&rectangle, 4).unwrap();
    assert_eq!(rects.len(), 4);
    assert!(holds(&rects, &rect(-40, -40, -30, -30)));
    assert!(holds(&rects, &rect(-40, -30, -30, -20)));
    assert!(holds(&rects, &rect(-30, -40, -20, -30)));
    assert!(holds(&rects, &rect(-30, -30, -20, -20)));
}

#[test]
fn kmr_decompose_square_into_5() {
    let rectangle = rect(0, 0, 100, 100);
    let subdomains = kmr_decompose(&rectangle, 5).unwrap();
    assert_eq!(subdomains.len(), 5);
    for s in subdomains.iter() {
        println!("{s:?}");
    }
    assert!(holds(&subdomains, &rect_q([(0, 1), (0, 1)], [(50, 1), (100, 3)])));
    assert!(holds(&subdomains, &rect_q([(0, 1), (100, 3)], [(50, 1), (200, 3)])));
    assert!(holds(&subdomains, &rect_q([(0, 1), (200, 3)], [(50, 1), (100, 1)])));
    assert!(holds(&subdomains, &rect(50, 0, 100, 50)));
    assert!(holds(&subdomains, &rect(50, 50, 100, 100)));
}

#[test]
fn quadrants_reconstruct_square() {
    // Count four on a square: the corner coordinates of the union of the
    // quadrants give back the square's corners exactly.
    let rectangle = rect(0, 0, 40, 40);
    let rects = kmr_decompose(&rectangle, 4).unwrap();
    assert_eq!(rects.len(), 4);
    let mut min0 = rects[0].min[0];
    let mut min1 = rects[0].min[1];
    let mut max0 = rects[0].max[0];
    let mut max1 = rects[0].max[1];
    for r in rects.iter() {
        if r.min[0].lt(&min0) {
            min0 = r.min[0];
        }
        if r.min[1].lt(&min1) {
            min1 = r.min[1];
        }
        if max0.lt(&r.max[0]) {
            max0 = r.max[0];
        }
        if max1.lt(&r.max[1]) {
            max1 = r.max[1];
        }
    }
    assert!(min0.eq_val(&rectangle.min[0]));
    assert!(min1.eq_val(&rectangle.min[1]));
    assert!(max0.eq_val(&rectangle.max[0]));
    assert!(max1.eq_val(&rectangle.max[1]));
}

#[test]
fn decompose_twice_is_identical() {
    let rectangle = rect(0, 0, 5, 3);
    let first = kmr_decompose(&rectangle, 7).unwrap();
    let second = kmr_decompose(&rectangle, 7).unwrap();
    assert_eq!(first, second);
}

#[test]
fn count_matching_aspect_ratio_takes_shortcut() {
    // The aspect ratio is exactly the count: still split into strips.
    let rectangle = rect(0, 0, 40, 10);
    let rects = kmr_decompose(&rectangle, 4).unwrap();
    assert_eq!(rects.len(), 4);
    for (i, r) in rects.iter().enumerate() {
        let i = i as i64;
        assert!(rect_eq(r, &rect(10 * i, 0, 10 * (i + 1), 10)));
    }
}

#[test]
fn small_square_into_two_has_no_rule() {
    // No selector rule applies to a square split in two: C is the side
    // length (the candidate of the sole admissible pair), above both
    // halved cell dimensions.
    let rectangle = rect(0, 0, 2, 2);
    assert_eq!(kmr_decompose(&rectangle, 2), Err(Error::Decompose));
}

#[test]
fn large_square_into_two_has_no_rule() {
    // The same shape at a larger scale fails the same way: the selector
    // table depends only on the shape, not the size.
    let rectangle = rect(0, 0, 100, 100);
    assert_eq!(kmr_decompose(&rectangle, 2), Err(Error::Decompose));
}

#[test]
fn error_messages() {
    assert_eq!(
        Error::Decompose.message(),
        "Could not find suitable subdomain for given digit"
    );
    assert_eq!(Error::Indexing.message(), "Could not assign index to subdomain");
}

#[test]
fn subdomains_do_not_overlap() {
    // Two subdomains may share an edge but never interior area.
    let rectangle = rect(0, 0, 5, 3);
    let rects = kmr_decompose(&rectangle, 7).unwrap();
    for (i, r) in rects.iter().enumerate() {
        for (j, t) in rects.iter().enumerate() {
            if i != j {
                let separated = r.max[0].le(&t.min[0])
                    || t.max[0].le(&r.min[0])
                    || r.max[1].le(&t.min[1])
                    || t.max[1].le(&r.min[1]);
                assert!(separated);
            }
        }
    }
}

#[test]
fn approximate_equality_within_tolerance() {
    let a = rect(0, 0, 10, 10);
    let b = rect_q([(1, 10), (-1, 10)], [(99, 10), (101, 10)]);
    assert!(a.abs_diff_eq(&b, &Rat::new(11, 100)));
    assert!(!a.abs_diff_eq(&b, &Rat::new(9, 100)));
    assert!(a.abs_diff_eq(&a, &Rat::new(0, 1)));
}

#[test]
fn areas_sum_to_the_domain_area() {
    // Exact arithmetic: the areas of the parts sum to the whole.
    let rectangle = rect(0, 0, 5, 3);
    let rects = kmr_decompose(&rectangle, 7).unwrap();
    let mut total = Rat::from_int(0);
    for r in rects.iter() {
        let w = r.max[0].sub(&r.min[0]);
        let h = r.max[1].sub(&r.min[1]);
        total = total.add(&w.mul(&h));
    }
    assert!(total.eq_val(&Rat::from_int(15)));
}
