use folio::filters::{Pred, WhereError, blames, keeps, parse_preds, pointed_at, scalar_text};
use folio::fm::{Fm, FmValue, Scalar};

fn s(v: &str) -> Scalar {
    Scalar::Str(v.to_string())
}

fn entry(k: &str, v: FmValue) -> (String, FmValue) {
    (k.to_string(), v)
}

fn text(k: &str, v: &str) -> (String, FmValue) {
    entry(k, FmValue::Scalar(s(v)))
}

fn row(fm: Fm) -> (usize, Fm) {
    (0, fm)
}

fn parse(raw: &[&str]) -> (Vec<Pred>, Vec<String>) {
    parse_preds(&raw.iter().map(|s| s.to_string()).collect::<Vec<_>>()).unwrap()
}

fn preds(raw: &[&str]) -> Vec<Pred> {
    parse(raw).0
}

fn one(raw: &str) -> Result<Vec<Pred>, WhereError> {
    parse_preds(&vec![raw.to_string()]).map(|(p, _)| p)
}

#[test]
fn pointed_at_flattens_lists_and_tolerates_absence() {
    let rows = vec![
        row(vec![text("id", "M-2"), entry("supersedes", FmValue::List(vec![s("M-1"), s("M-0")]))]),
        row(vec![text("id", "M-3"), text("supersedes", "M-9")]),
        row(vec![text("id", "M-4")]),
    ];
    let keys = vec!["supersedes".to_string()];
    let got = pointed_at(&rows, &keys);
    assert_eq!(
        got.iter().map(String::as_str).collect::<Vec<_>>(),
        vec!["M-0", "M-1", "M-9"],
        "a list contributes every element, a scalar contributes itself, a missing key nothing"
    );
    assert!(pointed_at(&rows, &vec!["nothing_carries_this".to_string()]).is_empty());
}

#[test]
fn identity_matches_across_yaml_scalar_types() {
    // `id: 0001` can arrive as a number while the pointer arrived as a
    // string. Both sides go through scalar_text so the join still closes.
    let rows = vec![row(vec![
        entry("id", FmValue::Scalar(Scalar::Number("1".to_string()))),
        entry("supersedes", FmValue::List(vec![s("1")])),
    ])];
    let pointed = pointed_at(&rows, &vec!["supersedes".to_string()]);
    let identity = match &rows[0].1[0].1 {
        FmValue::Scalar(v) => v,
        FmValue::List(_) => panic!("an id"),
    };
    assert!(pointed.contains(&scalar_text(identity)));
}

#[test]
fn an_empty_pointer_value_points_at_nothing() {
    let rows = vec![row(vec![text("id", "M-1"), text("supersedes", "")])];
    assert!(
        pointed_at(&rows, &vec!["supersedes".to_string()]).is_empty(),
        "an empty value must not drop every record that has no identity"
    );
}

#[test]
fn presence_and_absence_are_both_reachable() {
    let annotated = vec![text("status", "live")];
    let bare = vec![text("title", "Beta")];
    assert!(keeps(&annotated, &preds(&["status"])));
    assert!(!keeps(&bare, &preds(&["status"])));
    assert!(keeps(&bare, &preds(&["!status"])));
    assert!(!keeps(&annotated, &preds(&["!status"])));
}

#[test]
fn a_comparison_is_refused_rather_than_read_as_a_key() {
    for attempt in ["version>=7", "version<2", "a>b|c", "a&b"] {
        let err = one(attempt)
            .expect_err(&format!("`{attempt}` has to be refused, not reinterpreted"));
        assert!(
            err.message().contains("the whole grammar is"),
            "the refusal must name what folio does support: {}",
            err.message()
        );
    }
}

#[test]
fn a_predicate_naming_no_key_is_refused() {
    assert!(one("=live").is_err());
    assert!(one("!").is_err());
}

#[test]
fn a_comparison_binds_tighter_than_an_or() {
    let pred = preds(&["status=live | status=draft"]);
    assert!(keeps(&vec![text("status", "live")], &pred));
    assert!(keeps(&vec![text("status", "draft")], &pred));
    assert!(!keeps(&vec![text("status", "retired")], &pred));
}

#[test]
fn separate_flags_are_anded_and_one_flag_is_ored() {
    let pred = preds(&["status=live | status=draft", "type=guide"]);
    assert!(keeps(&vec![text("status", "draft"), text("type", "guide")], &pred));
    assert!(
        !keeps(&vec![text("status", "draft"), text("type", "note")], &pred),
        "the second flag has to still be required"
    );
    assert!(!keeps(&vec![text("status", "retired"), text("type", "guide")], &pred));
}

#[test]
fn a_bare_key_beside_an_or_is_hinted_at_and_not_refused() {
    // The precedence reading of `status=live|draft` is `status=live` or the
    // presence of a key `draft`, which is rarely meant and is still a real
    // thing to ask for. So it works, and it says so.
    let (pred, hints) = parse(&["status=live|draft"]);
    assert!(
        keeps(&vec![entry("draft", FmValue::Scalar(Scalar::Bool(true)))], &pred),
        "the presence test has to keep working"
    );
    assert_eq!(hints.len(), 1);
    assert!(hints[0].contains("presence test for the key `draft`"), "{}", hints[0]);
    assert!(
        parse(&["status=live | status=draft"]).1.is_empty(),
        "an or of two comparisons needs no hint"
    );
}

#[test]
fn the_predicate_that_emptied_a_result_is_named() {
    let rows = vec![(0, vec![text("status", "live")]), (1, vec![text("status", "retired")])];
    let pred = preds(&["status=live | status=draft", "type=guide"]);
    assert_eq!(
        blames(&rows, &pred),
        vec!["type=guide".to_string()],
        "only the predicate that kept nothing on its own is named"
    );
    assert!(blames(&rows, &preds(&["status=live"])).is_empty());
}

#[test]
fn key_not_equal_still_passes_when_the_key_is_absent() {
    // The documented behaviour, kept: a filter must not silently drop the
    // documents nobody has annotated yet.
    assert!(keeps(&vec![text("title", "Beta")], &preds(&["status!=deprecated"])));
}

#[test]
fn a_refusal_names_the_predicate_and_the_character() {
    let err = one("version>=7").unwrap_err();
    assert_eq!(
        err.message(),
        "--where version>=7: reads `version>` as the key, and `>` in a key is not something you meant. \
         folio compares text, and the whole grammar is `key`, `!key`, `key=value`, `key!=value`, joined by `|`"
    );
    let err = one("=live").unwrap_err();
    assert_eq!(
        err.message(),
        "--where =live: names no key. folio compares text, and the whole grammar is \
         `key`, `!key`, `key=value`, `key!=value`, joined by `|`"
    );
}

#[test]
fn a_list_value_holds_each_of_its_members() {
    let fm = vec![entry("tags", FmValue::List(vec![s("alpha"), s("beta")]))];
    assert!(keeps(&fm, &preds(&["tags=beta"])));
    assert!(!keeps(&fm, &preds(&["tags=gamma"])));
    assert!(keeps(&fm, &preds(&["tags!=gamma"])));
}
