use folio::extract::{check_carried, not_there, renumber_slice, slice_paths, take_subtree, unrecorded};
use folio::fm::{FmValue, Scalar};
use folio::matrix::{
    FINGERPRINT, compaction_due, recorded_dim, refuse_budget, refuse_unfinished, first_wrong_dim, hash, matrix_consistent, place, probe_text,
    renumber_moves, reuse_vectors, rows_in_matrix,
};
use folio::probe::{
    FLOOR, Longest, Outcome, Step, calibrate_step, first_missing, response_slot, synthetic_probe,
    take_chars,
};
use folio::report::{Declared, Indexed, Seen, config_lines, doctor_header, extract_summary, cut_lines, declaration_differs, frontmatter_keys, keys_line, status_lines, trail};
use folio::store::Counts;
use folio::sections::{Section, split};
use folio::store::{Stamp, high_water, meta_from_rows};

fn section(path: &str, start: usize) -> Section {
    Section {
        path: path.to_string(),
        start,
        end: start + 2,
        heading: Some("H".to_string()),
        breadcrumb: vec!["Top".to_string()],
        fm: Vec::new(),
        truncated: true,
        text: "prose".to_string(),
    }
}

#[test]
fn the_same_bytes_hash_the_same_and_other_bytes_do_not() {
    assert_eq!(hash(b"alpha"), hash(b"alpha"));
    assert_ne!(hash(b"alpha"), hash(b"alphb"));
    assert_ne!(hash(b""), hash(b"\0"));
}

#[test]
fn a_matrix_holds_whole_rows_and_dead_ones_wait_to_outnumber_the_live() {
    assert_eq!(rows_in_matrix(Some(3 * 4 * 10), 3), 10);
    assert_eq!(rows_in_matrix(Some(3 * 4 * 10 + 5), 3), 10);
    assert_eq!(rows_in_matrix(None, 3), 0);
    assert_eq!(rows_in_matrix(Some(100), 0), 0);
    assert_eq!(compaction_due(10, 4), (6, true));
    assert_eq!(compaction_due(10, 5), (5, false));
    assert_eq!(compaction_due(3, 5), (0, false));
    assert_eq!(compaction_due(0, 0), (0, false));
    assert!(matrix_consistent(24, 3, 2));
    assert!(!matrix_consistent(24, 3, 3), "records name a row past the end");
    assert!(!matrix_consistent(25, 3, 1), "not whole rows");
}

#[test]
fn survivors_are_renumbered_through_the_negatives() {
    assert_eq!(renumber_moves(&vec![1, 4, 9]), vec![(1, -1), (4, -2), (9, -3)]);
    assert!(renumber_moves(&Vec::new()).is_empty());
}

#[test]
fn a_run_reuses_vectors_only_in_the_same_space() {
    assert!(reuse_vectors(false, 3, false));
    assert!(!reuse_vectors(true, 3, false));
    assert!(!reuse_vectors(false, 0, false));
    assert!(!reuse_vectors(false, 3, true));
    assert_eq!(probe_text(&String::new()), FINGERPRINT);
    assert_eq!(probe_text(&"older probe".to_string()), "older probe");
}

#[test]
fn a_vector_of_the_wrong_length_is_named() {
    assert_eq!(first_wrong_dim(&vec![3, 3, 4, 2], 3), Some(2));
    assert_eq!(first_wrong_dim(&vec![3, 3], 3), None);
}

#[test]
fn a_batch_takes_the_rows_after_the_last() {
    let placed = place(7, vec![section("a.md", 1), section("a.md", 9)]);
    assert_eq!(placed.iter().map(|(s, x)| (*s, x.start)).collect::<Vec<_>>(), vec![(7, 1), (8, 9)]);
    assert_eq!(high_water(Some(7)), Some(8));
    assert_eq!(high_water(None), Some(0));
}

#[test]
fn calibration_halves_down_to_the_floor() {
    assert_eq!(calibrate_step(8000, Outcome::Accepted), Step::Done(8000));
    assert_eq!(calibrate_step(8000, Outcome::Refused), Step::Retry(4000));
    assert_eq!(calibrate_step(FLOOR, Outcome::Refused), Step::Fail);
    assert_eq!(calibrate_step(8000, Outcome::NoAnswer), Step::Fail);
    assert_eq!(take_chars("héllo", 2), "hé");
    assert_eq!(take_chars("hé", 9), "hé");
}

#[test]
fn the_probe_is_the_longest_section_or_filler() {
    let filler = synthetic_probe(60);
    assert_eq!(filler.chars().count(), 60);
    assert!(filler.starts_with("The quarterly figures arrived late again this morning. The q"));
    assert_eq!(
        Longest::new().finish(10),
        ("The quarte".to_string(), "synthetic English prose, no corpus under this root".to_string())
    );

    let mut l = Longest::new();
    l.offer(split("a.md", "# A\n\nshort\n"));
    l.offer(split("b.md", "# B\n\na much longer section body\n"));
    l.offer(split("c.md", "# C\n\nsmall\n"));
    let (text, from) = l.finish(8000);
    assert!(text.contains("a much longer section body"));
    assert_eq!(from, "the longest section in b.md");

    let mut l = Longest::new();
    l.offer(split("b.md", "# B\n\na much longer section body\n"));
    let (text, from) = l.finish(5);
    assert_eq!(text.chars().count(), 5);
    assert_eq!(from, "the longest section in b.md, cut to the budget");
}

#[test]
fn a_returned_vector_lands_at_its_input() {
    assert_eq!(response_slot(0, 3, 10), Some(3));
    assert_eq!(response_slot(1, 3, 40), Some(35));
    assert_eq!(response_slot(1, 3, 35), None);
    assert_eq!(response_slot(0, usize::MAX, 10), None);
    assert_eq!(first_missing(&vec![true, false, true]), Some(1));
    assert_eq!(first_missing(&vec![true, true]), None);
}

#[test]
fn status_lists_the_keys_the_corpus_carries() {
    let s = |k: &str| (k.to_string(), FmValue::Scalar(Scalar::Null));
    let rows = vec![(0, vec![s("type"), s("id")]), (1, vec![s("id"), s("status")]), (2, Vec::new())];
    let keys = frontmatter_keys(&rows);
    assert_eq!(keys, vec!["id".to_string(), "status".to_string(), "type".to_string()]);
    assert_eq!(keys_line(&keys), "id, status, type");
    assert_eq!(keys_line(&Vec::new()), "(none)");
}

#[test]
fn a_declaration_differs_only_in_what_it_names() {
    assert!(!declaration_differs(None, None, "m", "e"));
    assert!(!declaration_differs(Some("m"), Some("e"), "m", "e"));
    assert!(declaration_differs(Some("other"), None, "m", "e"));
    assert!(declaration_differs(None, Some("other"), "m", "e"));
}

#[test]
fn an_index_run_says_what_it_did() {
    let r = Indexed {
        files: 3,
        sections: 10,
        truncated: 2,
        budget: 8000,
        dim: 768,
        reembedded: 1,
        moved: 1,
        retired: 4,
        dead: 4,
        compacted: 0,
    };
    assert_eq!(
        r.summary(),
        vec![
            "indexed 3 files · 10 sections · dim 768".to_string(),
            "  1 re-embedded, 4 replaced or removed, 4 dead row(s)".to_string(),
            "  1 moved, keeping the vectors they had".to_string(),
            "  2 sections truncated at 8000 characters".to_string(),
        ]
    );
}

#[test]
fn the_meta_is_read_from_its_rows() {
    let rows = vec![
        ("model".to_string(), "m".to_string()),
        ("compacting".to_string(), "1".to_string()),
        ("endpoint".to_string(), "e".to_string()),
        ("dim".to_string(), "3".to_string()),
    ];
    let m = meta_from_rows(&rows);
    assert_eq!((m.model.as_str(), m.endpoint.as_str(), m.dim), ("m", "e", 3));
    let m = meta_from_rows(&vec![("dim".to_string(), "three".to_string())]);
    assert_eq!(m.dim, 0);
}

#[test]
fn a_slice_takes_the_subtree_and_renumbers_from_zero() {
    let rows = vec![
        (1, section("keep/a.md", 1)),
        (4, section("keeper.md", 1)),
        (9, section("keep/b.md", 5)),
        (12, section("keep/a.md", 9)),
    ];
    let under = "keep/".to_string();
    let taken = take_subtree(rows, &under);
    assert_eq!(taken.iter().map(|(s, _)| *s).collect::<Vec<_>>(), vec![1, 9, 12]);
    assert_eq!(slice_paths(&taken), vec!["keep/a.md".to_string(), "keep/b.md".to_string()]);
    let slice = renumber_slice(taken, &under);
    assert_eq!(
        slice.iter().map(|(s, x)| (*s, x.path.as_str(), x.start)).collect::<Vec<_>>(),
        vec![(0, "a.md", 1), (1, "b.md", 5), (2, "a.md", 9)]
    );
}

#[test]
fn a_slice_names_each_file_that_is_not_where_it_was_recorded() {
    let was = Stamp { hash: 7, len: 1, mtime: 0 };
    assert_eq!(check_carried(&"a.md".to_string(), was, Ok(7)), Ok(("a.md".to_string(), was)));
    assert_eq!(
        check_carried(&"a.md".to_string(), was, Ok(8)),
        Err("a.md (holds different text)".to_string())
    );
    assert_eq!(
        check_carried(&"a.md".to_string(), was, Err("No such file".to_string())),
        Err("a.md (No such file)".to_string())
    );
    assert_eq!(unrecorded(&"b.md".to_string()), "b.md (the index recorded no hash for it)");
    assert_eq!(
        not_there(2, &"/x".to_string(), &"b.md (holds different text)".to_string()),
        "2 of the files this slice names are not at /x as the index recorded them, starting with b.md (holds different text)"
    );
}

#[test]
fn a_trail_names_the_headings_above_a_section_and_its_own() {
    let crumbs = vec!["Measurements".to_string()];
    assert_eq!(trail(&crumbs, &Some("2026-09-05 — public corpora".to_string())), "Measurements > 2026-09-05 — public corpora");
    assert_eq!(trail(&Vec::new(), &Some("Top".to_string())), "Top");
    assert_eq!(trail(&Vec::new(), &None), "");
}

#[test]
fn status_reports_what_the_index_covers() {
    let counts = Counts { files: 2, sections: 43, truncated: 1 };
    let keys = vec!["id".to_string(), "status".to_string()];
    let lines = status_lines("/c", &counts, "m", "e", 768, &None, &keys);
    assert_eq!(
        lines,
        vec![
            "/c".to_string(),
            "  files       2".to_string(),
            "  sections    43".to_string(),
            "  truncated   1".to_string(),
            "  model       m @ e".to_string(),
            "  dim         768".to_string(),
            "  frontmatter id, status".to_string(),
        ]
    );
    let declared = Some(Declared { model: Some("other".to_string()), endpoint: None, path: "/c/folio.yaml".to_string() });
    let lines = status_lines("/c", &counts, "m", "e", 768, &declared, &Vec::new());
    assert_eq!(lines[5], "  declared    other @ e  (/c/folio.yaml)");
    assert_eq!(lines[7], "  frontmatter (none)");
    let same = Some(Declared { model: Some("m".to_string()), endpoint: Some("e".to_string()), path: "/c/folio.yaml".to_string() });
    assert_eq!(status_lines("/c", &counts, "m", "e", 768, &same, &keys).len(), 7);
}

#[test]
fn the_cut_sections_are_named_with_their_trails() {
    let mut s = section("docs/measurements.md", 166);
    s.end = 325;
    s.heading = Some("2026-09-05 — public corpora".to_string());
    s.breadcrumb = vec!["Measurements".to_string()];
    assert_eq!(
        cut_lines(43, 8000, &vec![s]),
        vec![
            "1 of 43 sections were cut at --max-chars 8000, and ranked on what was left:".to_string(),
            "  docs/measurements.md:166-325".to_string(),
            "        Measurements > 2026-09-05 — public corpora".to_string(),
        ]
    );
    assert_eq!(cut_lines(43, 8000, &Vec::new()), vec!["no section was cut at 8000 characters".to_string()]);
}

#[test]
fn config_says_what_won_and_never_the_key() {
    let lines = config_lines(
        "http://e",
        folio::config::Source::Environment,
        "m",
        folio::config::Source::Default,
        folio::config::Source::User,
        "/c/folio.yaml",
        false,
        "/home/u/.config/folio/config.yaml",
        true,
    );
    assert_eq!(
        lines,
        vec![
            "  endpoint  http://e  (environment)".to_string(),
            "  model     m  (default)".to_string(),
            "  api_key   [configured]  (user config)".to_string(),
            "  corpus    /c/folio.yaml  (not written yet)".to_string(),
            "  user      /home/u/.config/folio/config.yaml".to_string(),
            String::new(),
            "`folio query` uses whatever the index recorded; run `folio status` for that.".to_string(),
        ]
    );
    let doctor = doctor_header("http://e", folio::config::Source::Project, "m", folio::config::Source::Nothing);
    assert_eq!(
        doctor,
        vec!["  endpoint   http://e  (folio.yaml)".to_string(), "  model      m".to_string()]
    );
    assert_eq!(
        extract_summary(2, 5, "/into", "m", "e"),
        vec!["extracted 2 files · 5 sections into /into".to_string(), "  model       m @ e".to_string()]
    );
}

#[test]
fn a_range_two_roots_hold_is_answered_once() {
    let mut seen = Seen::new();
    assert!(seen.first_time("/c/a.md".to_string(), 1, 4));
    assert!(seen.first_time("/c/a.md".to_string(), 5, 9));
    assert!(!seen.first_time("/c/a.md".to_string(), 1, 4));
    assert!(seen.first_time("/d/a.md".to_string(), 1, 4));
}

#[test]
fn a_run_is_refused_before_it_touches_anything() {
    assert_eq!(
        refuse_budget(0).unwrap_err().message(),
        "a section budget of 0 characters would embed nothing"
    );
    assert!(refuse_budget(1).is_ok());
    assert_eq!(
        refuse_unfinished(true, "/c/.folio/vectors.f32").unwrap_err().message(),
        "a compaction of /c/.folio/vectors.f32 did not finish, so the records may name the wrong rows — rerun with --rebuild"
    );
    assert!(refuse_unfinished(false, "/c/.folio/vectors.f32").is_ok());
    assert_eq!(recorded_dim(true, 768, 1024), 768);
    assert_eq!(recorded_dim(false, 768, 1024), 1024);
}
