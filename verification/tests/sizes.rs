use cobs_io_async::{max_encoding_length, max_encoding_overhead};

#[test]
fn test_overhead_empty() {
    assert_eq!(max_encoding_overhead(0), 1);
}

#[test]
fn test_overhead_one() {
    assert_eq!(max_encoding_overhead(1), 1);
}

#[test]
fn test_overhead_larger() {
    assert_eq!(max_encoding_overhead(253), 1);
    assert_eq!(max_encoding_overhead(254), 1);
}

#[test]
fn test_overhead_two() {
    assert_eq!(max_encoding_overhead(255), 2);
}

#[test]
fn test_max_encoding_length() {
    assert_eq!(max_encoding_length(0), 1);
    assert_eq!(max_encoding_length(253), 254);
    assert_eq!(max_encoding_length(254), 255);
    assert_eq!(max_encoding_length(255), 257);
    assert_eq!(max_encoding_length(254 * 2), 255 * 2);
    assert_eq!(max_encoding_length(254 * 2 + 1), 256 * 2);
}

#[test]
fn encoding_size_bounds() {
    for (input_len, overhead, encoded_len) in [
        (0, 1, 1),
        (1, 1, 2),
        (253, 1, 254),
        (254, 1, 255),
        (255, 2, 257),
        (508, 2, 510),
        (509, 3, 512),
    ] {
        assert_eq!(max_encoding_overhead(input_len), overhead);
        assert_eq!(max_encoding_length(input_len), encoded_len);
    }
}

#[test]
fn overhead_at_the_top_of_the_range() {
    assert_eq!(max_encoding_overhead(usize::MAX), usize::MAX / 254 + 1);
    assert_eq!(max_encoding_length(254 * 1000), 255 * 1000);
}
