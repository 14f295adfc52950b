use state_bench::memory::{peak_memory_first_parsed, peak_memory_from_status};

const STATUS: &str = "Name:\tharness\nVmPeak:\t  204800 kB\nVmSize:\t  100000 kB\nVmHWM:\t    1234 kB\nVmRSS:\t     999 kB\n";

#[test]
fn reads_the_line_of_the_key() {
    assert_eq!(peak_memory_from_status(STATUS.as_bytes(), b"VmHWM:"), 1234 * 1024);
    assert_eq!(peak_memory_from_status(STATUS.as_bytes(), b"VmPeak:"), 204800 * 1024);
}

#[test]
fn missing_key_gives_zero() {
    assert_eq!(peak_memory_from_status(STATUS.as_bytes(), b"VmSwap:"), 0);
    assert_eq!(peak_memory_from_status(b"", b"VmHWM:"), 0);
}

#[test]
fn key_counts_only_at_line_start() {
    assert_eq!(peak_memory_from_status(b"XVmHWM: 5 kB\n", b"VmHWM:"), 0);
    assert_eq!(peak_memory_from_status(b"a\nVmHWM: 5 kB", b"VmHWM:"), 5 * 1024);
}

#[test]
fn first_matching_line_wins() {
    assert_eq!(peak_memory_from_status(b"VmHWM: 1 kB\nVmHWM: 2 kB\n", b"VmHWM:"), 1024);
}

#[test]
fn unparsable_field_gives_zero() {
    assert_eq!(peak_memory_from_status(b"VmHWM: abc kB\n", b"VmHWM:"), 0);
    assert_eq!(peak_memory_from_status(b"VmHWM: kB\n", b"VmHWM:"), 0);
    assert_eq!(peak_memory_from_status(b"VmHWM: 12 MB\n", b"VmHWM:"), 0);
}

#[test]
fn unit_is_optional() {
    assert_eq!(peak_memory_from_status(b"VmHWM:7\n", b"VmHWM:"), 7 * 1024);
}

#[test]
fn overflowing_figure_gives_zero() {
    assert_eq!(peak_memory_from_status(b"VmHWM: 18014398509481983 kB\n", b"VmHWM:"), 18014398509481983 * 1024);
    assert_eq!(peak_memory_from_status(b"VmHWM: 18014398509481984 kB\n", b"VmHWM:"), 0);
    assert_eq!(peak_memory_from_status(b"VmHWM: 99999999999999999999999 kB\n", b"VmHWM:"), 0);
}

#[test]
fn unit_must_follow_a_space() {
    assert_eq!(peak_memory_from_status(b"VmHWM:\t5kB\n", b"VmHWM:"), 0);
    assert_eq!(peak_memory_from_status(b"VmHWM:\t5 kB kB\n", b"VmHWM:"), 5 * 1024);
    assert_eq!(peak_memory_from_status(b"VmHWM:\t5  kB\n", b"VmHWM:"), 5 * 1024);
}

#[test]
fn leading_plus_is_accepted() {
    assert_eq!(peak_memory_from_status(b"VmHWM: +5 kB\n", b"VmHWM:"), 5 * 1024);
    assert_eq!(peak_memory_from_status(b"VmHWM: + kB\n", b"VmHWM:"), 0);
    assert_eq!(peak_memory_from_status(b"VmHWM: -5 kB\n", b"VmHWM:"), 0);
}

#[test]
fn other_whitespace_is_trimmed() {
    assert_eq!(peak_memory_from_status(b"VmHWM:\t 5 kB\r\n", b"VmHWM:"), 5 * 1024);
    assert_eq!(peak_memory_from_status(b"VmHWM:\x0c5 kB\x0b\n", b"VmHWM:"), 5 * 1024);
}

#[test]
fn first_parsed_skips_bad_key_lines() {
    let text = b"VmPeak:\tabc kB\nVmPeak:\t 7 kB\n";
    assert_eq!(peak_memory_first_parsed(text, b"VmPeak:"), 7168);
    assert_eq!(peak_memory_from_status(text, b"VmPeak:"), 0);
    assert_eq!(peak_memory_first_parsed(b"Name:\tx\n", b"VmPeak:"), 0);
    assert_eq!(peak_memory_first_parsed(STATUS.as_bytes(), b"VmPeak:"), 204800 * 1024);
}

#[test]
fn first_parsed_skips_numbers_past_u64() {
    let text = b"VmPeak: 99999999999999999999999 kB\nVmPeak: 3 kB\n";
    assert_eq!(peak_memory_first_parsed(text, b"VmPeak:"), 3 * 1024);
    assert_eq!(peak_memory_from_status(text, b"VmPeak:"), 0);
}
