use station_stats::partition::compute_chunks;

fn assert_covers(buffer: &[u8], workers: usize) {
    let r = compute_chunks(buffer, workers);
    assert_eq!(r.len(), workers);
    assert_eq!(r[0].0, 0);
    assert_eq!(r[workers - 1].1, buffer.len());
    for i in 0..workers {
        assert!(r[i].0 <= r[i].1);
        assert!(r[i].1 <= buffer.len());
        if i + 1 < workers {
            assert_eq!(r[i].1, r[i + 1].0);
            if !buffer.is_empty() && buffer[buffer.len() - 1] == b'\n' {
                assert!(r[i].1 >= 1);
                assert_eq!(buffer[r[i].1 - 1], b'\n');
            }
        }
    }
}

#[test]
fn covers_two_workers() {
    assert_covers(b"aa;1.0\nbb;2.0\nccc;3.0\n", 2);
}

#[test]
fn covers_more_workers_than_lines() {
    assert_covers(b"a;1.0\n", 5);
}

#[test]
fn covers_empty_buffer() {
    let r = compute_chunks(b"", 3);
    assert_eq!(r, vec![(0, 0), (0, 0), (0, 0)]);
}

#[test]
fn covers_many_workers() {
    let mut input = Vec::new();
    for i in 0..100 {
        input.extend_from_slice(format!("station{};{}.5\n", i, i).as_bytes());
    }
    for w in [1, 2, 3, 7, 16, 64] {
        assert_covers(&input, w);
    }
}

#[test]
fn boundary_stays_put_without_terminator() {
    // A buffer with no line terminator at all: each boundary falls back to
    // its naive position instead of a terminator-aligned one.
    let r = compute_chunks(b"abcdef", 2);
    assert_eq!(r, vec![(0, 3), (3, 6)]);
}
