use pcf::math::deltas_fit_exec;
use pcf::data::{measured, min_size, parse_records, records_bytes, Records};

fn sample() -> Records {
    Records {
        names: vec!["a.png".to_string(), "b.png".to_string()],
        sizes: vec![1000, 2000],
        lossless: vec![400, 900],
        lossy: vec![300, 800],
    }
}

#[test]
fn records_read_back_as_written() {
    let r = sample();
    let bytes = records_bytes(&r);
    let back = parse_records(&bytes).unwrap();
    assert_eq!(back.names, r.names);
    assert_eq!(back.sizes, r.sizes);
    assert_eq!(back.lossless, r.lossless);
    assert_eq!(back.lossy, r.lossy);
}

#[test]
fn records_bytes_are_bincode() {
    let r = sample();
    let expected = bincode::serialize(&(
        vec!["a.png".to_string(), "b.png".to_string()],
        vec![1000usize, 2000],
        vec![400usize, 900],
        vec![300usize, 800],
    ))
    .unwrap();
    assert_eq!(records_bytes(&r), expected);
    let parsed = parse_records(&expected).unwrap();
    assert_eq!(parsed.sizes, vec![1000, 2000]);
}

#[test]
fn records_reject_broken_bytes() {
    assert!(parse_records(&[]).is_none());
    assert!(parse_records(&[5, 0, 0]).is_none());
    let mut bytes = records_bytes(&sample());
    bytes.truncate(bytes.len() - 1);
    assert!(parse_records(&bytes).is_none());
}

#[test]
fn empty_records_round_trip() {
    let r = Records { names: vec![], sizes: vec![], lossless: vec![], lossy: vec![] };
    let bytes = records_bytes(&r);
    assert_eq!(bytes.len(), 32);
    let back = parse_records(&bytes).unwrap();
    assert!(back.names.is_empty() && back.lossy.is_empty());
}

#[test]
fn measurement_appends_smallest_lossy_size() {
    let mut r = sample();
    r.record_measurement("c.png".to_string(), 5000, 1200, &vec![900, 700, 1100, 700]);
    assert_eq!(r.names[2], "c.png");
    assert_eq!(r.sizes, vec![1000, 2000, 5000]);
    assert_eq!(r.lossless, vec![400, 900, 1200]);
    assert_eq!(r.lossy, vec![300, 800, 700]);
}

#[test]
fn smallest_size() {
    assert_eq!(min_size(&vec![7]), 7);
    assert_eq!(min_size(&vec![9, 3, 5, 3, 8]), 3);
}

#[test]
fn measured_names() {
    assert!(measured("cat.png", "cat"));
    assert!(measured("cat.png", ""));
    assert!(!measured("dog.png", "cat"));
    assert!(!measured("cat-credits.txt", "cat"));
    assert!(!measured("credits", ""));
    assert!(measured("credit.png", "cr"));
    assert!(!measured("ca", "cat"));
}

#[test]
fn short_coordinate_lists_fit_the_run_counter() {
    assert!(deltas_fit_exec(&[]));
    assert!(deltas_fit_exec(&[3]));
    assert!(deltas_fit_exec(&[0, 1, 2, 3, 4, 9, 14]));
}
