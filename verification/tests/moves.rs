use folio::moves::pair_moves;
use folio::plan::{content_changed, plan, unmoved};
use folio::store::Stamp;

fn stamped(hash: u64) -> Stamp {
    Stamp { hash, len: 1, mtime: 0 }
}

fn stamps(entries: &[(&str, u64)]) -> Vec<(String, Stamp)> {
    entries.iter().map(|(p, h)| (p.to_string(), stamped(*h))).collect()
}

fn paths(names: &[&str]) -> Vec<String> {
    names.iter().map(|p| p.to_string()).collect()
}

#[test]
fn a_renamed_file_hands_its_records_to_the_new_path() {
    let prev = stamps(&[("a.md", 7)]);
    let current = stamps(&[("b.md", 7)]);
    let changed = paths(&["b.md"]);
    assert_eq!(
        pair_moves(&prev, &current, &changed),
        vec![("a.md".to_string(), "b.md".to_string())]
    );
}

#[test]
fn a_copy_takes_no_records_from_the_file_it_copied() {
    let prev = stamps(&[("a.md", 7)]);
    let current = stamps(&[("a.md", 7), ("b.md", 7)]);
    let changed = paths(&["b.md"]);
    assert!(pair_moves(&prev, &current, &changed).is_empty());
}

#[test]
fn one_departure_supplies_only_one_of_two_arrivals() {
    let prev = stamps(&[("a.md", 7)]);
    let current = stamps(&[("b.md", 7), ("c.md", 7)]);
    let changed = paths(&["b.md", "c.md"]);
    let moves = pair_moves(&prev, &current, &changed);
    assert_eq!(moves, vec![("a.md".to_string(), "b.md".to_string())]);
}

#[test]
fn identical_renames_pair_in_path_order_whatever_order_they_arrive_in() {
    let prev = stamps(&[("y.md", 7), ("x.md", 7)]);
    let current = stamps(&[("q.md", 7), ("p.md", 7)]);
    let changed = paths(&["q.md", "p.md"]);
    assert_eq!(
        pair_moves(&prev, &current, &changed),
        vec![
            ("x.md".to_string(), "p.md".to_string()),
            ("y.md".to_string(), "q.md".to_string())
        ]
    );
}

#[test]
fn a_plan_embeds_changes_moves_renames_and_retires_what_vanished() {
    let prev = stamps(&[("a.md", 1), ("gone.md", 2), ("old.md", 3), ("kept.md", 4)]);
    let current = stamps(&[("a.md", 9), ("new.md", 3), ("kept.md", 4), ("fresh.md", 5)]);
    let changed = paths(&["a.md", "new.md", "fresh.md"]);
    let p = plan(&prev, &current, &changed);
    assert_eq!(p.moves, vec![("old.md".to_string(), "new.md".to_string())]);
    assert_eq!(p.fresh, paths(&["a.md", "fresh.md"]));
    assert_eq!(p.vanished, paths(&["gone.md"]));
}

#[test]
fn an_untouched_corpus_plans_nothing() {
    let prev = stamps(&[("a.md", 1), ("b.md", 2)]);
    let p = plan(&prev, &prev.clone(), &Vec::new());
    assert!(p.moves.is_empty() && p.fresh.is_empty() && p.vanished.is_empty());
}

#[test]
fn a_file_whose_stamp_held_is_not_read_and_not_changed() {
    let was = Stamp { hash: 7, len: 12, mtime: 5 };
    assert!(unmoved(Some(was), 12, 5));
    assert!(!unmoved(Some(was), 13, 5));
    assert!(!unmoved(Some(was), 12, 6));
    assert!(!unmoved(None, 12, 5));
    assert!(!content_changed(Some(was), 7));
    assert!(content_changed(Some(was), 8));
    assert!(content_changed(None, 7));
}
