use streamhist::{bin_width, epanechnikov, triangular, uniform, KernelDensity, Ratio, StreamHist};

#[test]
fn empty_histogram() {
    let kde = KernelDensity::new(StreamHist::default(), 1);
    assert!(kde.density(0).is_none());
}

#[test]
fn density() {
    let mut hist = StreamHist::from_values(vec![100, 200, 200, 300, 400, 500]);
    hist.resize(3);
    let kde = KernelDensity::new(hist, 220);

    // All densities share the denominator `count * bandwidth^2`, so the
    // numerators compare directly.
    let at = |v: i64| kde.density(v).unwrap();
    assert!(at(0).num < at(100).num);
    assert!(at(600).num < at(500).num);
    assert!(at(200).num > at(500).num);

    let mut x: i64 = 100;
    while x < 500 {
        assert!(at(x).num > 0);
        x += 1;
    }
}

#[test]
fn kernels_exact() {
    // triangular(1/2) = 1/2
    let r = triangular(Ratio { num: 1, den: 2 });
    assert_eq!((r.num, r.den), (1, 2));
    // triangular(-3/2) = 0
    let r = triangular(Ratio { num: -3, den: 2 });
    assert_eq!((r.num, r.den), (0, 2));
    // epanechnikov(1/2) = 3/4 * (1 - 1/4) = 9/16
    let r = epanechnikov(Ratio { num: 1, den: 2 });
    assert_eq!((r.num, r.den), (9, 16));
    // uniform(1/2) = 1/2, uniform(3/2) = 0
    let r = uniform(Ratio { num: 1, den: 2 });
    assert_eq!((r.num, r.den), (1, 2));
    let r = uniform(Ratio { num: 3, den: 2 });
    assert_eq!((r.num, r.den), (0, 2));
}

#[test]
fn bin_width_exact() {
    let hist = StreamHist::from_values(vec![100, 200, 300, 400, 500]);
    let w = bin_width(&hist).unwrap();
    assert_eq!((w.num, w.den), (400, 5));

    assert!(bin_width(&StreamHist::default()).is_none());
}
