use streamhist::{SketchData, StreamHist};

#[test]
fn export_import_round_trip() {
    let mut hist = StreamHist::with_capacity(4);
    for v in [700, -200, 300, 300, 900, -500, 100] {
        hist.insert(v);
    }
    let data = hist.export();
    let back = StreamHist::import(data);
    assert_eq!(back.bins.len(), hist.bins.len());
    for (a, b) in back.bins.iter().zip(hist.bins.iter()) {
        assert_eq!(a.mean, b.mean);
        assert_eq!(a.count, b.count);
    }
    assert_eq!(back.min, hist.min);
    assert_eq!(back.max, hist.max);
    // The interchange shape carries no target size: it defaults to the
    // number of bins.
    assert_eq!(back.size, hist.bins.len());
    assert_eq!(back.count(), hist.count());
}

#[test]
fn export_empty() {
    let data = StreamHist::default().export();
    assert!(data.means.is_empty());
    assert!(data.counts.is_empty());
    assert_eq!(data.min, None);
    assert_eq!(data.max, None);
}

#[test]
fn import_defaults_range_to_bin_means() {
    let data = SketchData {
        means: vec![300, 100, 200],
        counts: vec![2, 3, 4],
        min: None,
        max: None,
    };
    let hist = StreamHist::import(data);
    assert_eq!(hist.min, Some(100));
    assert_eq!(hist.max, Some(300));
    assert_eq!(hist.size, 3);
    assert_eq!(hist.count(), 9);
    let means: Vec<i64> = hist.bins.iter().map(|b| b.mean).collect();
    assert_eq!(means, vec![100, 200, 300]);
}

#[test]
fn import_keeps_given_range() {
    let data = SketchData {
        means: vec![300, 100, 200],
        counts: vec![2, 3, 4],
        min: Some(0),
        max: Some(500),
    };
    let hist = StreamHist::import(data);
    assert_eq!(hist.min, Some(0));
    assert_eq!(hist.max, Some(500));
}
