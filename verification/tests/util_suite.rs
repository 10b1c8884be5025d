use streamhist::{is_json, is_sorted, Bin};

#[test]
fn is_json_suffix() {
    assert!(is_json("hist.json"));
    assert!(is_json("hist.JSON"));
    assert!(is_json("dir/Hist.Json"));
    assert!(!is_json("hist.msgpack"));
    assert!(!is_json("hist.jsonx"));
    assert!(!is_json("json"));
    assert!(!is_json(""));
}

#[test]
fn is_sorted_check() {
    assert!(is_sorted(&vec![]));
    assert!(is_sorted(&vec![Bin::new(100, 1)]));
    assert!(is_sorted(&vec![Bin::new(100, 1), Bin::new(100, 5), Bin::new(200, 1)]));
    assert!(!is_sorted(&vec![Bin::new(200, 1), Bin::new(100, 1)]));
}
