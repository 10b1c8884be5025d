use streamhist::{Bin, Ratio, StreamHist};

/// The rational `r` denotes the same number as `num / den`.
fn ratio_is(r: Ratio, num: i128, den: i128) -> bool {
    r.den > 0 && den > 0 && r.num * den == num * r.den
}

/// `a <= b` as rational numbers.
fn ratio_le(a: Ratio, b: Ratio) -> bool {
    a.num * b.den <= b.num * a.den
}

#[test]
fn cdf() {
    let hist = StreamHist::from_values(vec![100, 200, 300, 400, 500]);
    assert!(ratio_is(hist.cdf(0).unwrap(), 0, 1));
    assert!(ratio_is(hist.cdf(300).unwrap(), 1, 2));
    assert!(ratio_is(hist.cdf(hist.max.unwrap() + 10).unwrap(), 1, 1));

    assert!(ratio_is(hist.cdf(i64::MIN).unwrap(), 0, 1));
    assert!(ratio_is(hist.cdf(i64::MAX).unwrap(), 1, 1));

    assert!(StreamHist::default().cdf(0).is_none());
}

#[test]
fn count_by_nan() {
    let hist = StreamHist::from_values(vec![100, 200, 300, 400, 500]);
    assert!(ratio_is(hist.count_by(i64::MIN), 0, 1));
    assert!(ratio_is(hist.count_by(i64::MAX), 5, 1));
}

#[test]
fn count_by() {
    assert!(ratio_is(StreamHist::with_capacity(5).count_by(200), 0, 1));

    let hist = StreamHist::from_values(vec![0]);
    assert!(ratio_is(hist.count_by(0), 0, 1));
    assert!(ratio_is(hist.count_by(-200), 0, 1));
    assert!(ratio_is(hist.count_by(200), 1, 1));

    let hist = StreamHist::from_values(vec![100, 200, 300, 400, 500]);
    assert!(ratio_is(hist.count_by(100), 0, 1));
    assert!(ratio_is(hist.count_by(0), 0, 1));
    assert!(ratio_is(hist.count_by(150), 1, 1));
    assert!(ratio_is(hist.count_by(200), 3, 2));
    assert!(ratio_is(hist.count_by(300), 5, 2));
    assert!(ratio_is(hist.count_by(400), 7, 2));
    assert!(ratio_is(hist.count_by(450), 4, 1));
    assert!(ratio_is(hist.count_by(500), 9, 2));
    assert!(ratio_is(hist.count_by(600), 5, 1));

    let hist = StreamHist {
        bins: vec![Bin::new(700, 3), Bin::from(2000), Bin::new(3400, 3)],
        min: Some(100),
        max: Some(3700),
        size: 3,
    };
    assert!(ratio_is(hist.count_by(0), 0, 1));
    assert!(ratio_is(hist.count_by(4000), 7, 1));

    let in_range = |r: Ratio, lo: i128, hi: i128, hi_incl: bool| {
        let above = lo * r.den <= r.num;
        let below = if hi_incl {
            r.num <= hi * r.den
        } else {
            r.num < hi * r.den
        };
        above && below
    };
    assert!(in_range(hist.count_by(200), 0, 3, false));
    assert!(in_range(hist.count_by(500), 0, 3, false));
    assert!(in_range(hist.count_by(700), 1, 3, true));
    assert!(in_range(hist.count_by(800), 1, 4, false));
    assert!(in_range(hist.count_by(1900), 3, 4, false));
    assert!(in_range(hist.count_by(2000), 3, 4, true));
    assert!(in_range(hist.count_by(2100), 3, 7, false));
    assert!(in_range(hist.count_by(3400), 4, 7, true));
    assert!(in_range(hist.count_by(3600), 4, 7, true));
    assert!(in_range(hist.count_by(3700), 4, 7, true));
}

#[test]
fn counts_are_monotonic() {
    let hist = StreamHist {
        bins: vec![Bin::new(700, 3), Bin::from(2000), Bin::new(3400, 3)],
        min: Some(100),
        max: Some(3700),
        size: 3,
    };

    // The cumulative counts are monotonically increasing.
    let total = hist.count() as i128;
    let mut prev_count = Ratio { num: 0, den: 1 };
    let mut value: i64 = 0;
    while value < 4000 {
        let count = hist.count_by(value);
        assert!(ratio_le(prev_count, count));
        assert!(count.num >= 0);
        assert!(count.num <= total * count.den);
        value += 1;
        prev_count = count;
    }
}

#[test]
fn quantile() {
    let hist = StreamHist::from_values(vec![100, 200, 300, 400, 500]);
    assert!(ratio_is(hist.quantile(Ratio { num: 0, den: 1 }).unwrap(), 100, 1));
    assert!(ratio_is(hist.quantile(Ratio { num: 1, den: 5 }).unwrap(), 150, 1));
    assert!(ratio_is(hist.quantile(Ratio { num: 1, den: 2 }).unwrap(), 300, 1));
    assert!(ratio_is(hist.quantile(Ratio { num: 1, den: 1 }).unwrap(), 500, 1));
    assert!(ratio_is(hist.median().unwrap(), 300, 1));

    assert!(StreamHist::with_capacity(10).quantile(Ratio { num: 0, den: 1 }).is_none());
    assert!(StreamHist::with_capacity(10).quantile(Ratio { num: 1, den: 2 }).is_none());
    assert!(StreamHist::with_capacity(10).median().is_none());
}

#[test]
fn quantiles_are_monotonic() {
    let hist = StreamHist {
        bins: vec![Bin::new(700, 3), Bin::from(2000), Bin::new(3400, 3)],
        min: Some(100),
        max: Some(3700),
        size: 3,
    };
    // Quantiles are monotonically increasing.
    let mut prev_value = Ratio { num: 0, den: 1 };
    let mut k: i128 = 0;
    while k <= 1000 {
        let value = hist.quantile(Ratio { num: k, den: 1000 }).unwrap();
        assert!(value.den > 0);
        assert!(ratio_le(prev_value, value));
        assert!(100 * value.den <= value.num);
        assert!(value.num <= 3700 * value.den);
        k += 1;
        prev_value = value;
    }
}

#[test]
fn mean() {
    assert!(StreamHist::with_capacity(10).mean().is_none());
    assert!(ratio_is(StreamHist::from_values(vec![100, 200]).mean().unwrap(), 150, 1));
    assert!(ratio_is(
        StreamHist::from_bins(vec![Bin::from(100), Bin::new(200, 2), Bin::from(300)])
            .mean()
            .unwrap(),
        200,
        1
    ));
    assert!(ratio_is(
        StreamHist::from_values(vec![100, 200, 300, 400, 500]).mean().unwrap(),
        300,
        1
    ));
    assert!(ratio_is(
        StreamHist::from_bins(vec![
            Bin::new(1000, 1),
            Bin::new(2000, 3),
            Bin::new(3000, 1)
        ])
        .mean()
        .unwrap(),
        2000,
        1
    ));
}

#[test]
fn variance() {
    assert!(StreamHist::with_capacity(10).variance().is_none());
    // The variance of the samples 1..=5 is 2 square units, which is 20000
    // on the hundredfold grid.
    assert!(ratio_is(
        StreamHist::from_values(vec![100, 200, 300, 400, 500]).variance().unwrap(),
        20000,
        1
    ));
    // mean = (1000 * 1 + 2000 * 3 + 3000 * 1) / 5 = 2000
    // var = (1 * 1000^2 + 3 * 0 + 1 * 1000^2) / 5 = 400000
    assert!(ratio_is(
        StreamHist::from_bins(vec![
            Bin::new(1000, 1),
            Bin::new(2000, 3),
            Bin::new(3000, 1)
        ])
        .variance()
        .unwrap(),
        400000,
        1
    ));
}

#[test]
fn stdev_floor() {
    assert!(StreamHist::with_capacity(10).stdev().is_none());
    // variance is 20000, whose square root is 141.42..: rounded down to 141.
    assert_eq!(
        StreamHist::from_values(vec![100, 200, 300, 400, 500]).stdev(),
        Some(141)
    );
    // variance is exactly 400000^0.5 = 632.45..: rounded down to 632.
    assert_eq!(
        StreamHist::from_bins(vec![
            Bin::new(1000, 1),
            Bin::new(2000, 3),
            Bin::new(3000, 1)
        ])
        .stdev(),
        Some(632)
    );
}

#[test]
fn fast_variants() {
    let hist = StreamHist::from_values(vec![100, 200, 300, 400, 500]);
    assert_eq!(hist.fast_count_by(100), 0);
    assert_eq!(hist.fast_count_by(150), 1);
    assert_eq!(hist.fast_count_by(300), 3);
    assert_eq!(hist.fast_count_by(600), 5);
    assert!(ratio_is(hist.fast_cdf(300).unwrap(), 3, 5));
    assert!(StreamHist::default().fast_cdf(0).is_none());

    assert_eq!(hist.fast_quantile(Ratio { num: 0, den: 1 }), Some(100));
    assert_eq!(hist.fast_quantile(Ratio { num: 1, den: 2 }), Some(200));
    assert_eq!(hist.fast_quantile(Ratio { num: 1, den: 1 }), Some(500));
    assert_eq!(StreamHist::default().fast_quantile(Ratio { num: 1, den: 2 }), None);

    // Monotone in the probability.
    let mut prev: i64 = i64::MIN;
    let mut k: i128 = 0;
    while k <= 100 {
        let v = hist.fast_quantile(Ratio { num: k, den: 100 }).unwrap();
        assert!(prev <= v);
        prev = v;
        k += 1;
    }
}
