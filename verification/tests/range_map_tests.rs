use puzzles::range_map::Interval;
use puzzles::range_map::RewriteError;
use puzzles::range_map::Rule;
use puzzles::range_map::Table;
use puzzles::range_map::rewrite_pipeline;

fn iv(start: usize, length: usize) -> Interval {
    Interval::new(start, length).unwrap()
}

fn rule(src_start: usize, src_len: usize, dst: usize) -> Rule {
    Rule { source: iv(src_start, src_len), destination_start: dst }
}

#[test]
fn empty_interval_is_rejected() {
    assert_eq!(Interval::new(5, 0), Err(RewriteError::InvalidInterval));
    assert_eq!(Interval::new(0, 1), Ok(Interval { start: 0, length: 1 }));
    assert_eq!(Interval::new(usize::MAX, 2), Err(RewriteError::InvalidInterval));
}

#[test]
fn zero_length_rule_is_rejected_at_construction() {
    let r = Rule { source: Interval { start: 3, length: 0 }, destination_start: 7 };
    match Table::new(vec![r]) {
        Err(RewriteError::InvalidInterval) => {}
        other => panic!("expected InvalidInterval, got {:?}", other),
    }
}

#[test]
fn overlapping_rules_are_rejected_at_construction() {
    let rules = vec![rule(0, 10, 100), rule(5, 10, 200)];
    match Table::new(rules) {
        Err(RewriteError::OverlappingRules) => {}
        other => panic!("expected OverlappingRules, got {:?}", other),
    }
}

#[test]
fn split_partial_overlap() {
    // a rule covering [10, 20) moved to 100, applied to [5, 25)
    let r = rule(10, 10, 100);
    let (unmapped, mapped) = r.convert_range(&iv(5, 20));
    assert_eq!(mapped, Some(Interval { start: 100, length: 10 }));
    assert_eq!(unmapped, vec![
        Interval { start: 5, length: 5 },
        Interval { start: 20, length: 5 },
    ]);
}

#[test]
fn split_full_cover() {
    // a rule covering [0, 100) moved to 50, applied to [10, 20)
    let r = rule(0, 100, 50);
    let (unmapped, mapped) = r.convert_range(&iv(10, 10));
    assert_eq!(mapped, Some(Interval { start: 60, length: 10 }));
    assert_eq!(unmapped, Vec::new());
}

#[test]
fn split_no_overlap_passes_through() {
    let r = rule(10, 10, 100);
    let (unmapped, mapped) = r.convert_range(&iv(30, 5));
    assert_eq!(mapped, None);
    assert_eq!(unmapped, vec![Interval { start: 30, length: 5 }]);
}

#[test]
fn scalar_convert_matches_table() {
    let t = Table::new(vec![rule(10, 10, 100)]).unwrap();
    assert_eq!(t.apply_value(9), 9);
    assert_eq!(t.apply_value(10), 100);
    assert_eq!(t.apply_value(19), 109);
    assert_eq!(t.apply_value(20), 20);
    assert_eq!(t.rules[0].convert(15), Some(105));
    assert_eq!(t.rules[0].convert(20), None);
}

#[test]
fn table_conserves_total_length() {
    let t = Table::new(vec![rule(10, 10, 100), rule(30, 5, 0)]).unwrap();
    let input = vec![iv(5, 20), iv(28, 10), iv(50, 3)];
    let in_total: usize = input.iter().map(|i| i.length).sum();
    let out = t.rewrite_table(&input);
    let out_total: usize = out.iter().map(|i| i.length).sum();
    assert_eq!(out_total, in_total);
}

#[test]
fn single_value_interval_maps_pointwise() {
    // rewriting {[v, v+1)} equals {[f(v), f(v)+1)}
    let t = Table::new(vec![rule(10, 10, 100)]).unwrap();
    let out = t.rewrite_table(&vec![iv(15, 1)]);
    assert_eq!(out, vec![Interval { start: 105, length: 1 }]);
    let out = t.rewrite_table(&vec![iv(42, 1)]);
    assert_eq!(out, vec![Interval { start: 42, length: 1 }]);
}

#[test]
fn untouched_interval_passes_through_unchanged() {
    let t = Table::new(vec![rule(10, 10, 100)]).unwrap();
    let outside = iv(1000, 50);
    let out = t.rewrite_table(&vec![outside]);
    assert_eq!(out, vec![outside]);
}

#[test]
fn empty_table_returns_input_unchanged() {
    let t = Table::new(Vec::new()).unwrap();
    let input = vec![iv(5, 20), iv(100, 7)];
    let out = t.rewrite_table(&input);
    assert_eq!(out, input);
}

#[test]
fn two_stage_pipeline_splits_across_stages() {
    // stage one moves [0, 10) to 100; stage two moves [100, 105) to 1000
    let stage1 = Table::new(vec![rule(0, 10, 100)]).unwrap();
    let stage2 = Table::new(vec![rule(100, 5, 1000)]).unwrap();
    let out = rewrite_pipeline(&vec![stage1, stage2], &vec![iv(0, 10)]);
    let mut sorted = out.clone();
    sorted.sort_by_key(|i| i.start);
    assert_eq!(sorted, vec![
        Interval { start: 105, length: 5 },
        Interval { start: 1000, length: 5 },
    ]);
}

#[test]
fn pipeline_conserves_total_length() {
    let stage1 = Table::new(vec![rule(0, 10, 100), rule(20, 5, 7)]).unwrap();
    let stage2 = Table::new(vec![rule(100, 5, 1000)]).unwrap();
    let input = vec![iv(0, 30), iv(98, 4)];
    let in_total: usize = input.iter().map(|i| i.length).sum();
    let out = rewrite_pipeline(&vec![stage1, stage2], &input);
    let out_total: usize = out.iter().map(|i| i.length).sum();
    assert_eq!(out_total, in_total);
}

#[test]
fn rule_at_the_top_of_the_value_range() {
    // the last representable value can be mapped and mapped onto
    let r = rule(usize::MAX - 1, 1, 0);
    let (unmapped, mapped) = r.convert_range(&iv(usize::MAX - 1, 1));
    assert_eq!(mapped, Some(Interval { start: 0, length: 1 }));
    assert!(unmapped.is_empty());
    let r = rule(0, 1, usize::MAX - 1);
    let (unmapped, mapped) = r.convert_range(&iv(0, 1));
    assert_eq!(mapped, Some(Interval { start: usize::MAX - 1, length: 1 }));
    assert!(unmapped.is_empty());
}

#[test]
fn empty_pipeline_returns_input_unchanged() {
    let input = vec![iv(3, 4)];
    let out = rewrite_pipeline(&Vec::new(), &input);
    assert_eq!(out, input);
}
