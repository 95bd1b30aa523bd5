use station_stats::aggregate::{check_chunk, parse_file_chunk};
use station_stats::scan::find_next_newline;
use station_stats::table::StationMap;

#[test]
fn repeated_lines_accumulate() {
    let buf = b"Paris;10.0\nParis;10.0\nParis;10.0\n";
    let m = parse_file_chunk(0, buf.len(), buf);
    assert_eq!(m.len(), 1);
    let d = m.get(b"Paris").unwrap();
    assert_eq!(d.count(), 3);
    assert_eq!(d.sum(), 300);
    assert_eq!(d.min(), 100);
    assert_eq!(d.max(), 100);
}

#[test]
fn empty_range_gives_empty_map() {
    let buf = b"Paris;10.0\n";
    let m = parse_file_chunk(5, 5, buf);
    assert_eq!(m.len(), 0);
    let m2 = parse_file_chunk(buf.len(), buf.len(), buf);
    assert_eq!(m2.len(), 0);
}

#[test]
fn aggregates_several_keys() {
    let buf = b"b;1.5\na;-2.0\nb;3.5\nc;0.0\n";
    let m = parse_file_chunk(0, buf.len(), buf);
    assert_eq!(m.len(), 3);
    let a = m.get(b"a").unwrap();
    assert_eq!((a.min(), a.max(), a.count(), a.sum()), (-20, -20, 1, -20));
    let b = m.get(b"b").unwrap();
    assert_eq!((b.min(), b.max(), b.count(), b.sum()), (15, 35, 2, 50));
    let c = m.get(b"c").unwrap();
    assert_eq!((c.min(), c.max(), c.count(), c.sum()), (0, 0, 1, 0));
    assert!(m.get(b"d").is_none());
}

#[test]
fn accepts_well_formed_input() {
    let buf = b"Paris;10.0\nLondon;-5.5\n";
    assert!(check_chunk(buf, 0, buf.len()));
    assert!(check_chunk(buf, 0, 0));
}

#[test]
fn rejects_missing_delimiter() {
    let buf = b"Paris10.0\n";
    assert!(!check_chunk(buf, 0, buf.len()));
}

#[test]
fn rejects_missing_terminator() {
    let buf = b"Paris;10.0";
    assert!(!check_chunk(buf, 0, buf.len()));
}

#[test]
fn rejects_bad_value_fields() {
    assert!(!check_chunk(b"Paris;1x.0\n", 0, 11));
    assert!(!check_chunk(b"Paris;10\n", 0, 9));
    assert!(!check_chunk(b"Paris;10.55\n", 0, 12));
    assert!(!check_chunk(b"Paris;.5\n", 0, 9));
    assert!(!check_chunk(b"Paris;123456789.0\n", 0, 18));
}

#[test]
fn finds_next_newline() {
    let buf = b"ab\ncd\n";
    assert_eq!(find_next_newline(0, buf), 2);
    assert_eq!(find_next_newline(3, buf), 5);
    // No terminator left: the search reports the start position itself.
    assert_eq!(find_next_newline(6, buf), 6);
    assert_eq!(find_next_newline(1, b"abc"), 1);
}

#[test]
fn merge_matches_single_pass() {
    let buf = b"b;1.5\na;-2.0\nb;3.5\na;4.0\nc;0.5\n";
    let cut = 13; // after "b;1.5\na;-2.0\n"
    assert_eq!(&buf[..cut], b"b;1.5\na;-2.0\n");
    let mut left = parse_file_chunk(0, cut, buf);
    let right = parse_file_chunk(cut, buf.len(), buf);
    left.merge_from(&right);
    let whole = parse_file_chunk(0, buf.len(), buf);
    assert_eq!(left.len(), whole.len());
    for key in [&b"a"[..], b"b", b"c"] {
        let x = left.get(key).unwrap();
        let y = whole.get(key).unwrap();
        assert_eq!((x.min(), x.max(), x.count(), x.sum()), (y.min(), y.max(), y.count(), y.sum()));
    }
}

#[test]
fn merge_is_order_independent() {
    let buf = b"b;1.5\na;-2.0\nb;3.5\na;4.0\nc;0.5\n";
    let cut = 13;
    let left = parse_file_chunk(0, cut, buf);
    let right = parse_file_chunk(cut, buf.len(), buf);
    let mut one = StationMap::new();
    one.merge_from(&left);
    one.merge_from(&right);
    let mut two = StationMap::new();
    two.merge_from(&right);
    two.merge_from(&left);
    assert_eq!(one.len(), two.len());
    for key in [&b"a"[..], b"b", b"c"] {
        let x = one.get(key).unwrap();
        let y = two.get(key).unwrap();
        assert_eq!((x.min(), x.max(), x.count(), x.sum()), (y.min(), y.max(), y.count(), y.sum()));
    }
}
