use tiny_rust::wc::{format_counts, WordCount};

fn count(data: &[u8], chunk: usize) -> (u64, u64, u64) {
    let mut w = WordCount::new();
    for c in data.chunks(chunk.max(1)) {
        w.feed(c);
    }
    (w.lines, w.words, w.bytes)
}

#[test]
fn counts_a_text() {
    let t = b"hello world\n  two\twords here\r\nlast";
    assert_eq!(count(t, 4096), (2, 6, t.len() as u64));
    for chunk in [1usize, 2, 5, 7] {
        assert_eq!(count(t, chunk), (2, 6, t.len() as u64));
    }
    assert_eq!(count(b"", 1), (0, 0, 0));
    assert_eq!(count(b"\n\n", 1), (2, 0, 2));
}

#[test]
fn report_columns() {
    assert_eq!(String::from_utf8(format_counts(2, 6, 35)).unwrap(), "       2       6      35\n");
    assert_eq!(
        String::from_utf8(format_counts(123456789, 0, 1)).unwrap(),
        "123456789       0       1\n"
    );
}
