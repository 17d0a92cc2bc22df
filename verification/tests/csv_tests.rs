use rust_umap::cli::IntErrorKind;
use rust_umap::csv::{
    csv_flat_tokens, csv_nonempty_lines, csv_row_tokens, parse_csv_flat_usize, parse_csv_usize_rows,
    split_chars, trim_chars,
};

fn chars(s: &str) -> Vec<char> {
    s.chars().collect()
}

fn text(v: &[char]) -> String {
    v.iter().collect()
}

/// The rows `read_csv_usize` gives for a text, computed with `std`.
fn std_rows(s: &str) -> Result<Vec<Vec<usize>>, String> {
    let mut out = Vec::new();
    for line in s.lines() {
        let t = line.trim();
        if t.is_empty() {
            continue;
        }
        let row = t
            .split(',')
            .map(|x| x.trim().parse::<usize>())
            .collect::<Result<Vec<usize>, _>>()
            .map_err(|e| e.to_string())?;
        out.push(row);
    }
    Ok(out)
}

fn kind_text(k: IntErrorKind) -> &'static str {
    match k {
        IntErrorKind::Empty => "cannot parse integer from empty string",
        IntErrorKind::InvalidDigit => "invalid digit found in string",
        IntErrorKind::PosOverflow => "number too large to fit in target type",
    }
}

#[test]
fn split_and_trim_follow_std() {
    for s in ["a,b", "", ",", "a,,b,", " x "] {
        let ours: Vec<String> = split_chars(&chars(s), ',').iter().map(|p| text(p)).collect();
        let theirs: Vec<String> = s.split(',').map(|p| p.to_string()).collect();
        assert_eq!(ours, theirs);
    }
    for s in ["  a b \t", "\u{3000}x\u{a0}", "", "   ", "\r\nz\r"] {
        assert_eq!(text(&trim_chars(&chars(s))), s.trim());
    }
}

#[test]
fn lines_skip_blank_ones() {
    let lines: Vec<String> = csv_nonempty_lines(&chars("1,2\r\n\n  \n3 , 4\n"))
        .iter()
        .map(|l| text(l))
        .collect();
    assert_eq!(lines, vec!["1,2", "3 , 4"]);
}

#[test]
fn usize_rows_match_std_parsing() {
    for s in ["1,2,3\n4,5,6\n", "  7 ,8\r\n\n9,10", "1,,2\n", "1,x\n", "\n\n", "+3, 18446744073709551616"] {
        let ours = parse_csv_usize_rows(&chars(s)).map_err(|k| kind_text(k).to_string());
        assert_eq!(ours, std_rows(s), "input {s:?}");
    }
}

#[test]
fn flat_usize_values_skip_blank_fields() {
    assert_eq!(parse_csv_flat_usize(&chars("0, 2,\n5\n\n,7,")).unwrap(), vec![0, 2, 5, 7]);
    assert_eq!(parse_csv_flat_usize(&chars("1,-2")).unwrap_err(), IntErrorKind::InvalidDigit);
}

#[test]
fn float_tokens_are_handed_out_as_text() {
    let rows: Vec<Vec<String>> = csv_row_tokens(&chars("0.5, 1e3\n\n-2,\n"))
        .iter()
        .map(|r| r.iter().map(|t| text(t)).collect())
        .collect();
    assert_eq!(rows, vec![vec!["0.5", "1e3"], vec!["-2", ""]]);
    let flat: Vec<String> = csv_flat_tokens(&chars("0.5, 1e3\n\n-2,\n")).iter().map(|t| text(t)).collect();
    assert_eq!(flat, vec!["0.5", "1e3", "-2"]);
}
