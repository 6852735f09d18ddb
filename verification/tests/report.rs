use extent_overlap::{summarize, summary_lines, Overlap};

#[test]
fn lines_are_put_together_from_names_and_sizes() {
    let lines = summary_lines("a.img", "b.img", "1 KiB", "0 B", "3.50 MiB");
    assert_eq!(lines, vec!["a.img: 1 KiB unique", "b.img: 0 B unique", "3.50 MiB shared"]);
}

#[test]
fn lines_with_empty_parts() {
    let lines = summary_lines("", "", "", "", "");
    assert_eq!(lines, vec![":  unique", ":  unique", " shared"]);
}

#[test]
fn sizes_are_written_in_binary_units() {
    let overlap = Overlap { diff_bytes_1: 1024, diff_bytes_2: 150, shared_bytes: 1536 };
    let lines = summarize("/mnt/a", "/mnt/b", overlap);
    assert_eq!(lines, vec!["/mnt/a: 1 KiB unique", "/mnt/b: 150 B unique", "1.50 KiB shared"]);
}

#[test]
fn zero_and_large_sizes() {
    let overlap = Overlap { diff_bytes_1: 0, diff_bytes_2: 5 << 30, shared_bytes: 1 << 40 };
    let lines = summarize("x", "y", overlap);
    assert_eq!(lines, vec!["x: 0 B unique", "y: 5 GiB unique", "1 TiB shared"]);
}
