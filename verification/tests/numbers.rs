//! The scanner that finds the numbers quoted in prose, so that each can be
//! traced to a measurement.

/// Units that mark a number as a claim rather than a label. Longest first, so
/// `sections` is never read as `s`.
const UNITS: &[&str] = &[
    "characters", "sections", "seconds", "tokens", "files", "rows", "ms", "MB", "KB", "GB", "%",
    "s",
];

/// Every `<number> <unit>` in one line, as the number's own text.
fn claims(line: &str) -> Vec<String> {
    let bytes: Vec<char> = line.chars().collect();
    let mut out = Vec::new();
    let mut i = 0;
    while i < bytes.len() {
        if !bytes[i].is_ascii_digit() {
            i += 1;
            continue;
        }
        // A number preceded by a word character or a dot is part of something
        // else: a version, a path, an identifier.
        if i > 0 && (bytes[i - 1].is_alphanumeric() || bytes[i - 1] == '.' || bytes[i - 1] == '-') {
            while i < bytes.len() && (bytes[i].is_alphanumeric() || bytes[i] == '.') {
                i += 1;
            }
            continue;
        }
        let start = i;
        while i < bytes.len() && (bytes[i].is_ascii_digit() || bytes[i] == ',' || bytes[i] == '.') {
            i += 1;
        }
        let number: String = bytes[start..i].iter().collect();
        let number = number.trim_end_matches(['.', ',']).to_string();
        let rest: String = bytes[i..].iter().collect();
        let rest = rest.trim_start();
        if let Some(unit) = UNITS.iter().find(|u| {
            rest.starts_with(**u)
                && rest[u.len()..].chars().next().map_or(true, |c| !c.is_alphanumeric())
        }) {
            out.push(format!("{number} {unit}"));
        }
    }
    out
}

#[test]
fn the_scanner_reads_a_claim_and_ignores_a_label() {
    assert_eq!(claims("a query over 119,565 sections is 135 ms"),
               vec!["119,565 sections", "135 ms"]);
    assert_eq!(claims("no section was cut"), Vec::<String>::new());
    assert!(claims("folio 0.4.0 and jj 0.44.0 are versions").is_empty());
    assert_eq!(claims("`--max-chars 8000` accepts 8000 characters"), vec!["8000 characters"],
               "a flag's own value is not a claim; the sentence's is");
}
