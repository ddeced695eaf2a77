use folio::budget::to_budget;
use folio::fm::{Fm, FmValue, Scalar, fm_lookup};
use folio::matrix::{FLUSH, batches};
use folio::sections::{Section, split};

const DOC: &str = "---
type: Decision
id: 0019-1
status: live
tags: [alpha, beta]
verified: { by: human:zaeku, at: 2026-09-01 }
---

Preamble line.

## Top

body

```sh
# not a heading
```

### Nested

tail
";

fn text_of(v: &Scalar) -> Option<&str> {
    match v {
        Scalar::Str(s) => Some(s.as_str()),
        _ => None,
    }
}

fn get<'a>(fm: &'a Fm, k: &str) -> &'a FmValue {
    fm_lookup(fm, &k.to_string()).unwrap_or_else(|| panic!("{k} is in the frontmatter"))
}

#[test]
fn a_long_section_becomes_pieces_that_fit() {
    let para = "a".repeat(40);
    let source = format!("## H\n\n{para}\n\n{para}\n\n{para}\n");
    let sec = split("a.md", &source).pop().unwrap();
    let pieces = to_budget(sec, 60);

    assert!(pieces.len() > 1, "a section over the budget is more than one piece");
    for p in &pieces {
        assert!(p.text.chars().count() <= 60, "every piece fits: {}", p.text.len());
        assert_eq!(p.heading.as_deref(), Some("H"), "a piece keeps its heading");
    }
    // Consecutive and covering: a reader following the ranges reads the section.
    for w in pieces.windows(2) {
        assert_eq!(w[0].end + 1, w[1].start, "pieces are consecutive");
    }
    assert_eq!(pieces[0].start, 1, "the first piece starts where the section did");
    assert!(pieces.iter().all(|p| !p.truncated), "nothing was cut, only divided");
}

#[test]
fn one_line_over_the_budget_is_cut_and_marked() {
    // No boundary exists inside a single line, so the piece is truncated
    // and says so.
    let source = format!("## H\n\n{}\n", "b".repeat(200));
    let sec = split("a.md", &source).pop().unwrap();
    let pieces = to_budget(sec, 50);
    assert!(pieces.iter().any(|p| p.truncated), "the unsplittable line is marked");
}

#[test]
fn splits_sections_and_flattens_frontmatter() {
    let s = split("d.md", DOC);

    let headings: Vec<_> = s.iter().map(|x| x.heading.as_deref()).collect();
    assert_eq!(
        headings,
        vec![None, Some("Top"), Some("Nested")],
        "a `#` inside a fence must not open a section"
    );

    assert_eq!(s[0].start, 8, "ranges start after the frontmatter block");
    assert_eq!(s[1].end + 1, s[2].start, "ranges are contiguous and inclusive");
    assert_eq!(s[2].breadcrumb, vec!["Top".to_string()]);

    let fm = &s[0].fm;
    match get(fm, "status") {
        FmValue::Scalar(v) => assert_eq!(text_of(v), Some("live")),
        other => panic!("status is a scalar, not {other:?}"),
    }
    match get(fm, "verified.by") {
        FmValue::Scalar(v) => assert_eq!(text_of(v), Some("human:zaeku")),
        other => panic!("verified.by is a scalar, not {other:?}"),
    }
    match get(fm, "tags") {
        FmValue::List(items) => assert!(
            items.iter().any(|v| text_of(v) == Some("alpha")),
            "scalar lists stay whole so a filter can read membership"
        ),
        other => panic!("tags is a list, not {other:?}"),
    }
}

#[test]
fn file_without_frontmatter_keeps_line_one() {
    let s = split("d.md", "# Only\n\nbody\n");
    assert_eq!(s.len(), 1);
    assert_eq!((s[0].start, s[0].end), (1, 3));
}

fn section(path: &str, start: usize) -> Section {
    Section {
        path: path.to_string(),
        start,
        end: start,
        heading: None,
        breadcrumb: Vec::new(),
        fm: Vec::new(),
        truncated: false,
        text: String::new(),
    }
}

#[test]
fn a_batch_never_cuts_a_file_in_two() {
    let fresh = vec![
        section("a.md", 1),
        section("a.md", 2),
        section("a.md", 3),
        section("b.md", 1),
        section("c.md", 1),
        section("c.md", 2),
    ];
    let got = batches(fresh, 2);
    let shape: Vec<Vec<(String, usize)>> = got
        .iter()
        .map(|b| b.iter().map(|s| (s.path.clone(), s.start)).collect())
        .collect();
    assert_eq!(
        shape,
        vec![
            vec![("a.md".to_string(), 1), ("a.md".to_string(), 2), ("a.md".to_string(), 3)],
            vec![("b.md".to_string(), 1), ("c.md".to_string(), 1), ("c.md".to_string(), 2)],
        ]
    );
    assert!(batches(Vec::new(), FLUSH).is_empty());
    assert_eq!(batches(vec![section("a.md", 1)], FLUSH).len(), 1);
}
