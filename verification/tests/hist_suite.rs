use streamhist::{Bin, StreamHist};

#[test]
fn partition_point() {
    let hist = StreamHist::with_capacity(3);
    assert_eq!(hist.partition_point(0), 0);
    assert_eq!(hist.partition_point(1000), 0);

    let hist = StreamHist::from_values(vec![100, 200, 300]);
    assert_eq!(hist.partition_point(0), 0);
    assert_eq!(hist.partition_point(100), 0);
    assert_eq!(hist.partition_point(150), 1);
    assert_eq!(hist.partition_point(200), 1);
    assert_eq!(hist.partition_point(300), 2);
    assert_eq!(hist.partition_point(310), 3);
    assert_eq!(hist.partition_point(400), 3);

    assert_eq!(hist.partition_point(i64::MIN), 0);
    assert_eq!(hist.partition_point(i64::MAX), 3);
}

#[test]
fn insert() {
    let mut hist = StreamHist::with_capacity(3);

    // first element
    hist.insert(1000);
    assert_eq!(
        hist,
        StreamHist {
            bins: vec![Bin::new(1000, 1)],
            min: Some(1000),
            max: Some(1000),
            size: 3,
        }
    );
    // second and third elements
    hist.insert(3000);
    hist.insert(2000);
    assert_eq!(
        hist,
        StreamHist {
            bins: vec![Bin::from(1000), Bin::from(2000), Bin::from(3000)],
            min: Some(1000),
            max: Some(3000),
            size: 3,
        }
    );
    // update count for the first element
    hist.insert(1000);
    assert_eq!(
        hist,
        StreamHist {
            bins: vec![Bin::new(1000, 2), Bin::from(2000), Bin::from(3000)],
            min: Some(1000),
            max: Some(3000),
            size: 3,
        }
    );

    // update count for the last element
    hist.insert(3500);
    assert_eq!(
        hist,
        StreamHist {
            bins: vec![Bin::new(1000, 2), Bin::from(2000), Bin::new(3250, 2)],
            min: Some(1000),
            max: Some(3500),
            size: 3,
        }
    );

    // update count for the first element
    hist.insert(100);
    assert_eq!(
        hist,
        StreamHist {
            bins: vec![Bin::new(700, 3), Bin::from(2000), Bin::new(3250, 2)],
            min: Some(100),
            max: Some(3500),
            size: 3,
        }
    );

    // update count for the last element
    hist.insert(3700);
    assert_eq!(
        hist,
        StreamHist {
            bins: vec![Bin::new(700, 3), Bin::from(2000), Bin::new(3400, 3)],
            min: Some(100),
            max: Some(3700),
            size: 3,
        }
    );

    // update count for the second element
    hist.insert(2200);
    assert_eq!(
        hist,
        StreamHist {
            bins: vec![Bin::new(700, 3), Bin::new(2100, 2), Bin::new(3400, 3)],
            min: Some(100),
            max: Some(3700),
            size: 3,
        }
    );
}

#[test]
fn insert_counts_every_sample() {
    let mut hist = StreamHist::with_capacity(5);
    assert_eq!(hist.count(), 0);
    for i in 1..=10 {
        hist.insert(i * 100);
    }
    assert_eq!(hist.count(), 10);
    assert_eq!(hist.bins.len(), 5);
}

#[test]
fn merge_empty() {
    let mut hist = StreamHist::default();
    hist.merge(StreamHist::default());
    assert_eq!(hist, StreamHist::default());
}

#[test]
fn merge_empty_keeps_sketch() {
    let mut hist = StreamHist::from_values(vec![100, 300, 500]);
    let expected = hist.clone();
    hist.merge(StreamHist::default());
    assert_eq!(hist, expected);
}

#[test]
fn merge() {
    let mut h1 = StreamHist::from_values(vec![100, 200, 300]);
    let h2 = StreamHist::from_bins(vec![
        Bin::from(0),
        Bin::new(100, 2),
        Bin::from(250),
        Bin::new(600, 2),
    ]);
    h1.merge(h2);
    assert_eq!(
        h1,
        StreamHist {
            bins: vec![Bin::new(75, 4), Bin::new(250, 3), Bin::new(600, 2)],
            min: Some(0),
            max: Some(600),
            size: 3,
        }
    );
}

#[test]
fn resize() {
    let mut hist = StreamHist::from_values(vec![
        100, 200, 300, 400, 500, 600, 700, 800, 900, 1000,
    ]);
    assert!(hist.size == 10);
    assert!(hist.bins.len() == 10);
    hist.resize(5);
    assert!(hist.size == 5);
    assert!(hist.bins.len() == 5);
    assert_eq!(
        hist,
        StreamHist {
            bins: vec![
                Bin::new(150, 2),
                Bin::new(350, 2),
                Bin::new(550, 2),
                Bin::new(750, 2),
                Bin::new(950, 2),
            ],
            min: Some(100),
            max: Some(1000),
            size: 5,
        }
    );

    hist.resize(20);
    assert!(hist.size == 20);
    assert_eq!(
        hist,
        StreamHist {
            bins: vec![
                Bin::new(150, 2),
                Bin::new(350, 2),
                Bin::new(550, 2),
                Bin::new(750, 2),
                Bin::new(950, 2),
            ],
            min: Some(100),
            max: Some(1000),
            size: 20,
        }
    );
}

#[test]
fn is_empty() {
    assert!(StreamHist::default().is_empty());
    assert!(!StreamHist::from_values(vec![0]).is_empty());

    let mut hist = StreamHist::with_capacity(1);
    assert!(hist.is_empty());
    hist.insert(0);
    assert!(!hist.is_empty());

    hist.resize(0);
    assert!(hist.is_empty());
}

#[test]
fn from_vec_is_sorted() {
    assert_eq!(
        StreamHist::from_values(vec![500, 100, 300, 400, 200]),
        StreamHist {
            bins: vec![
                Bin::from(100),
                Bin::from(200),
                Bin::from(300),
                Bin::from(400),
                Bin::from(500)
            ],
            min: Some(100),
            max: Some(500),
            size: 5,
        }
    );
}

#[test]
fn from_bins_is_sorted() {
    assert_eq!(
        StreamHist::from_bins(vec![
            Bin::from(500),
            Bin::from(100),
            Bin::from(300),
            Bin::from(400),
            Bin::from(200)
        ]),
        StreamHist {
            bins: vec![
                Bin::from(100),
                Bin::from(200),
                Bin::from(300),
                Bin::from(400),
                Bin::from(500)
            ],
            min: Some(100),
            max: Some(500),
            size: 5,
        }
    );
}

#[test]
fn from_values_order_does_not_matter() {
    assert_eq!(
        StreamHist::from_values(vec![500, 100, 300, 400, 200]),
        StreamHist::from_values(vec![100, 200, 300, 400, 500])
    );
}

#[test]
fn insert_keeps_bins_sorted() {
    let mut hist = StreamHist::with_capacity(4);
    for v in [700, -200, 300, 300, 900, -500, 100] {
        hist.insert(v);
    }
    assert!(streamhist::is_sorted(&hist.bins));
    assert!(hist.bins.len() <= 4);
    assert_eq!(hist.count(), 7);
    assert_eq!(hist.min, Some(-500));
    assert_eq!(hist.max, Some(900));
}
