use station_stats::pipeline::run;
use station_stats::stats::DataPoint;

#[test]
fn end_to_end_example() {
    let input = b"Paris;10.0\nLondon;-5.5\nParis;20.0\n";
    let (_, lines) = run(input, 1);
    assert_eq!(lines.len(), 2);
    assert_eq!(lines[0], b"London=-5.5/-5.5/-5.5, ".to_vec());
    assert_eq!(lines[1], b"Paris=10.0/15.0/20.0, ".to_vec());
}

#[test]
fn output_independent_of_worker_count() {
    let mut input = Vec::new();
    for i in 0..50 {
        input.extend_from_slice(format!("st{};{}.{}\n", i % 7, i, i % 10).as_bytes());
        input.extend_from_slice(format!("st{};-{}.{}\n", i % 5, i, (i + 3) % 10).as_bytes());
    }
    let (_, reference) = run(&input, 1);
    for w in [2, 3, 4, 7, 16, 200] {
        let (_, lines) = run(&input, w);
        assert_eq!(lines, reference);
    }
}

#[test]
fn output_sorted_by_key() {
    let input = b"zebra;1.0\napple;2.0\nmango;3.0\napple;4.0\n";
    let (table, lines) = run(input, 3);
    assert_eq!(table.len(), 3);
    assert_eq!(lines.len(), 3);
    assert!(lines[0].starts_with(b"apple="));
    assert!(lines[1].starts_with(b"mango="));
    assert!(lines[2].starts_with(b"zebra="));
}

#[test]
fn empty_input_gives_no_lines() {
    let (table, lines) = run(b"", 4);
    assert_eq!(table.len(), 0);
    assert_eq!(lines.len(), 0);
}

#[test]
fn single_line_input() {
    let (table, lines) = run(b"Oslo;-0.0\n", 2);
    assert_eq!(table.len(), 1);
    assert_eq!(lines, vec![b"Oslo=0.0/0.0/0.0, ".to_vec()]);
}

#[test]
fn mean_truncates_toward_zero() {
    // sum 35, count 2: mean in tenths is 17, printed 1.7
    let (_, lines) = run(b"k;1.0\nk;2.5\n", 1);
    assert_eq!(lines, vec![b"k=1.0/1.7/2.5, ".to_vec()]);
    // negative: sum -35, count 2: mean in tenths is -17
    let (_, lines2) = run(b"k;-1.0\nk;-2.5\n", 1);
    assert_eq!(lines2, vec![b"k=-2.5/-1.7/-1.0, ".to_vec()]);
}

#[test]
fn data_point_folds_samples() {
    let mut d = DataPoint::new(100);
    d.add_sample(-55);
    d.add_sample(200);
    assert_eq!(d.min(), -55);
    assert_eq!(d.max(), 200);
    assert_eq!(d.count(), 3);
    assert_eq!(d.sum(), 245);
}
