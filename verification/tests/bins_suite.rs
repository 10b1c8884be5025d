use streamhist::Bin;

#[test]
fn equal() {
    assert_eq!(Bin::new(0, 0), Bin::new(0, 0));
    assert_eq!(Bin::new(0, 0), Bin::new(0, 10));
    assert_eq!(Bin::new(1000, 0), Bin::new(1000, 10));
    assert_ne!(Bin::new(1000, 0), Bin::new(0, 10));
}

#[test]
fn compare() {
    assert!(Bin::new(0, 0) < Bin::new(100, 0));
    assert!(Bin::new(-100, 0) > Bin::new(-200, 0));
    assert!(Bin::new(0, 0) <= Bin::new(100, 0));
}

#[test]
fn default() {
    assert_eq!(Bin::default(), Bin::new(0, 0))
}

#[test]
fn combine_weighted_mean() {
    // (100 * 2 + 200 * 3) / (2 + 3) = 800 / 5 = 160
    let merged = Bin::combine(Bin::new(100, 2), Bin::new(200, 3));
    assert_eq!(merged.mean, 160);
    assert_eq!(merged.count, 5);

    // The rounded mean stays between the two means.
    let merged = Bin::combine(Bin::new(300, 1), Bin::new(350, 1));
    assert_eq!(merged.mean, 325);
    assert_eq!(merged.count, 2);
}

#[test]
fn from_value_single_sample() {
    let bin = Bin::from(314);
    assert_eq!(bin.mean, 314);
    assert_eq!(bin.count, 1);
}
