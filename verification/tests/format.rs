use bigfiles::format::bytes_to_nice;
use bigfiles::format::largest_line;
use bigfiles::format::render_line;
use bigfiles::format::total_line;
use bigfiles::format::u64_to_dec;
use bigfiles::report::ReportLine;

#[test]
fn decimal_rendering() {
    assert_eq!(u64_to_dec(0), "0");
    assert_eq!(u64_to_dec(7), "7");
    assert_eq!(u64_to_dec(10), "10");
    assert_eq!(u64_to_dec(1234567890), "1234567890");
    assert_eq!(u64_to_dec(u64::MAX), "18446744073709551615");
}

#[test]
fn bytes_below_one_kib() {
    assert_eq!(bytes_to_nice(0), "0 B");
    assert_eq!(bytes_to_nice(500), "500 B");
    // the unit comparison is strict: exactly 1024 bytes still prints as bytes
    assert_eq!(bytes_to_nice(1024), "1024 B");
}

#[test]
fn bytes_in_kib_range() {
    assert_eq!(bytes_to_nice(1025), "1 KiB");
    assert_eq!(bytes_to_nice(2048), "2 KiB");
    assert_eq!(bytes_to_nice(10100), "9 KiB");
    assert_eq!(bytes_to_nice(1024 * 1024), "1024 KiB");
}

#[test]
fn bytes_in_mib_range() {
    assert_eq!(bytes_to_nice(1024 * 1024 + 1), "1 MiB");
    assert_eq!(bytes_to_nice(5 * 1024 * 1024), "5 MiB");
    assert_eq!(bytes_to_nice(1024 * 1024 * 1024), "1024 MiB");
}

#[test]
fn bytes_in_gib_range() {
    assert_eq!(bytes_to_nice(1024 * 1024 * 1024 + 1), "1 GiB");
    assert_eq!(bytes_to_nice(3 * 1024 * 1024 * 1024), "3 GiB");
}

#[test]
fn rendered_lines() {
    let file = ReportLine { size: 1000, is_file: true, path: "root/a".to_owned() };
    assert_eq!(render_line(&file), "1000 B   f root/a");
    let dir = ReportLine { size: 10100, is_file: false, path: "root".to_owned() };
    assert_eq!(render_line(&dir), "9 KiB    d root");
    // a size whose human form is 8 characters wide gets no padding
    let wide = ReportLine { size: 1040000, is_file: true, path: "p".to_owned() };
    assert_eq!(render_line(&wide), "1015 KiB f p");
}

#[test]
fn summary_lines() {
    assert_eq!(total_line(10100), "Total size: 9 KiB");
    assert_eq!(largest_line(10000), "Largest child: 9 KiB");
    assert_eq!(total_line(0), "Total size: 0 B");
}
