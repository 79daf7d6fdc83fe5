use tachiom::profile::{begin, take, CollectorState, ProfileSpan};
use tachiom::stage_shim;

fn fields(pairs: &[(&str, &str)]) -> Vec<(String, String)> {
    pairs.iter().map(|(k, v)| (k.to_string(), v.to_string())).collect()
}

fn sorted_meta(span: &ProfileSpan) -> Vec<(String, String)> {
    let mut meta = span.meta.clone();
    meta.sort();
    meta
}

fn started() -> Option<CollectorState> {
    let mut active = None;
    begin(&mut active);
    active
}

#[test]
fn spans_nest_in_their_parents() {
    let mut active = started();
    let state = active.as_mut().unwrap();
    state.on_new_span(1, None, "outer".to_string(), fields(&[]));
    state.on_new_span(2, Some(1), "first".to_string(), fields(&[]));
    state.on_new_span(3, Some(2), "deep".to_string(), fields(&[]));
    state.on_new_span(4, Some(1), "second".to_string(), fields(&[]));
    state.on_new_span(5, Some(77), "stray".to_string(), fields(&[]));
    let trees = take(&mut active);
    assert!(active.is_none());
    assert_eq!(trees.len(), 2);
    assert_eq!((trees[0].name.as_str(), trees[1].name.as_str()), ("outer", "stray"));
    let names: Vec<&str> = trees[0].children.iter().map(|c| c.name.as_str()).collect();
    assert_eq!(names, vec!["first", "second"]);
    assert_eq!(trees[0].children[0].children[0].name, "deep");
    assert!(take(&mut active).is_empty());
}

#[test]
fn device_and_count_are_taken_from_the_fields() {
    let mut active = started();
    let state = active.as_mut().unwrap();
    let f = fields(&[("count", "12"), ("device", "gpu"), ("k", "1"), ("k", "2")]);
    state.on_new_span(1, None, "a".to_string(), f);
    state.on_new_span(2, None, "b".to_string(), fields(&[("count", "many")]));
    state.on_record(1, fields(&[("k", "3"), ("device", "later")]));
    state.on_record(9, fields(&[("k", "3")]));
    let trees = take(&mut active);
    assert_eq!((trees[0].device.as_str(), trees[0].count), ("gpu", 12));
    assert_eq!(sorted_meta(&trees[0]), fields(&[("device", "later"), ("k", "3")]));
    assert_eq!((trees[1].device.as_str(), trees[1].count), ("cpu", 1));
    assert!(trees[1].meta.is_empty());
}

#[test]
fn times_add_up_between_enter_and_exit() {
    let mut active = started();
    let state = active.as_mut().unwrap();
    state.on_new_span(1, None, "a".to_string(), fields(&[]));
    state.on_enter(1, 100);
    state.on_exit(1, 130);
    state.on_exit(1, 500);
    state.on_enter(1, 1000);
    state.on_exit(1, 1005);
    state.on_new_span(2, None, "b".to_string(), fields(&[]));
    state.on_enter(2, 0);
    state.on_exit(2, u128::MAX);
    state.on_enter(2, 0);
    state.on_exit(2, 7);
    state.on_enter(3, 7);
    state.on_exit(3, 8);
    let trees = take(&mut active);
    assert_eq!(trees[0].dur_ns, 35);
    assert_eq!(trees[1].dur_ns, u64::MAX);
    assert_eq!(trees.len(), 2);
}

#[test]
fn a_reused_id_is_a_new_span() {
    let mut active = started();
    let state = active.as_mut().unwrap();
    state.on_new_span(1, None, "old".to_string(), fields(&[]));
    state.on_new_span(2, Some(1), "inner".to_string(), fields(&[]));
    state.on_new_span(1, Some(2), "new".to_string(), fields(&[]));
    let trees = take(&mut active);
    assert_eq!(trees.len(), 1);
    assert_eq!(trees[0].name, "new");
    assert!(trees[0].children.is_empty());
}

#[test]
fn beginning_again_forgets() {
    let mut active = started();
    active.as_mut().unwrap().on_new_span(1, None, "a".to_string(), fields(&[]));
    begin(&mut active);
    assert!(take(&mut active).is_empty());
}

#[test]
fn stages_are_not_recorded() {
    assert!(!stage_shim::supported());
    stage_shim::begin();
    let mut guard = stage_shim::NoopGuard;
    guard.set("a", 1.5f64.to_bits()).set("b", 0);
    assert!(stage_shim::take().is_empty());
    let sample = stage_shim::StageSample::default();
    assert_eq!((sample.name.as_str(), sample.dur_ns, sample.meta.len()), ("", 0, 0));
}
