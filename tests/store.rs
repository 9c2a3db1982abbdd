use widget_feedback::{Contract, StarAverage};

fn s(x: &str) -> String {
    x.to_string()
}

fn add(c: &mut Contract, feedback: &str, widget: &str, account: &str, star: u64) {
    c.add_feedback(s(feedback), s(widget), s("link"), s(account), star);
}

fn average(a: &StarAverage) -> f64 {
    if a.total_count > 0 {
        a.total_stars as f64 / a.total_count as f64
    } else {
        0.0
    }
}

#[test]
fn single_submission_records_text_and_rating() {
    let mut c = Contract::default();
    c.add_feedback(s("nice"), s("w1"), s("link"), s("alice"), 5);
    assert_eq!(c.get_feedbacks(s("w1")), Some(vec![s("alice said nice ")]));
    let (w, avg) = c.get_star(s("w1")).unwrap();
    assert_eq!(w, "w1");
    assert_eq!((avg.total_stars, avg.total_count), (5, 1));
    assert_eq!(average(&avg), 5.0);
}

#[test]
fn vote_is_global_across_widgets() {
    let mut c = Contract::default();
    c.add_feedback(s("ok"), s("w1"), s("l"), s("alice"), 5);
    c.add_feedback(s("great"), s("w2"), s("l"), s("alice"), 1);
    assert!(c.get_star(s("w2")).is_none());
    assert_eq!(c.get_feedbacks(s("w2")), Some(vec![s("alice said great ")]));
    let (_, avg) = c.get_star(s("w1")).unwrap();
    assert_eq!((avg.total_stars, avg.total_count), (5, 1));
}

#[test]
fn unknown_widget_is_absent() {
    let mut c = Contract::default();
    assert!(c.get_feedbacks(s("w")).is_none());
    assert!(c.get_star(s("w")).is_none());
    add(&mut c, "hi", "other", "bob", 3);
    assert!(c.get_feedbacks(s("w")).is_none());
    assert!(c.get_star(s("w")).is_none());
}

#[test]
fn widget_ids_match_exactly() {
    let mut c = Contract::default();
    add(&mut c, "hi", "W1", "bob", 3);
    assert!(c.get_feedbacks(s("w1")).is_none());
    assert!(c.get_feedbacks(s("W1 ")).is_none());
    assert!(c.get_star(s("w1")).is_none());
    assert_eq!(c.get_feedbacks(s("W1")), Some(vec![s("bob said hi ")]));
}

#[test]
fn feedback_appended_after_vote_already_counted() {
    let mut c = Contract::default();
    add(&mut c, "first", "w", "carol", 2);
    add(&mut c, "second", "w", "carol", 4);
    add(&mut c, "", "w", "dave", 1);
    assert_eq!(
        c.get_feedbacks(s("w")),
        Some(vec![s("carol said first "), s("carol said second "), s("dave said  ")])
    );
}

#[test]
fn repeat_submission_adds_one_rating() {
    let mut c = Contract::default();
    add(&mut c, "a", "w", "erin", 3);
    add(&mut c, "b", "w", "erin", 1);
    assert_eq!(c.get_feedbacks(s("w")).unwrap().len(), 2);
    let (_, avg) = c.get_star(s("w")).unwrap();
    assert_eq!((avg.total_stars, avg.total_count), (3, 1));
}

#[test]
fn average_weights_later_ratings_more() {
    let mut c = Contract::default();
    add(&mut c, "x", "w", "a1", 1);
    add(&mut c, "x", "w", "a2", 4);
    let (_, avg) = c.get_star(s("w")).unwrap();
    // (1*1 + 4*2) / (1 + 2) = 3, not the plain mean 2.5
    assert_eq!((avg.total_stars, avg.total_count), (9, 3));
    assert_eq!(average(&avg), 3.0);
    add(&mut c, "x", "w", "a3", 7);
    let (_, avg) = c.get_star(s("w")).unwrap();
    // (1 + 8 + 21) / 6 = 5
    assert_eq!((avg.total_stars, avg.total_count), (30, 6));
    assert_eq!(average(&avg), 5.0);
}

#[test]
fn unvalidated_star_values_are_stored() {
    let mut c = Contract::default();
    add(&mut c, "x", "w", "a1", 0);
    add(&mut c, "x", "w", "a2", u64::MAX);
    assert!(c.star_sum_fits(&s("w")));
    let (_, avg) = c.get_star(s("w")).unwrap();
    assert_eq!(avg.total_stars, 2 * (u64::MAX as u128));
    assert_eq!(avg.total_count, 3);
}

#[test]
fn star_sum_fits_for_unrated_widget() {
    let mut c = Contract::default();
    assert!(c.star_sum_fits(&s("w")));
    add(&mut c, "x", "w", "a1", 2);
    assert!(c.star_sum_fits(&s("w")));
}

#[test]
fn parts_round_trip() {
    let mut c = Contract::default();
    add(&mut c, "x", "w1", "a1", 2);
    add(&mut c, "y", "w2", "a1", 3);
    add(&mut c, "z", "w2", "a2", 4);
    let (fb, rt, va) = c.into_parts();
    assert_eq!(fb.len(), 2);
    assert_eq!(rt, vec![(s("w1"), vec![(2, 1)]), (s("w2"), vec![(4, 1)])]);
    assert_eq!(va, vec![s("a1"), s("a2")]);
    let mut c = Contract::from_parts(fb, rt, va).unwrap();
    assert_eq!(c.get_feedbacks(s("w2")), Some(vec![s("a1 said y "), s("a2 said z ")]));
    add(&mut c, "again", "w1", "a2", 5);
    let (_, avg) = c.get_star(s("w1")).unwrap();
    assert_eq!((avg.total_stars, avg.total_count), (2, 1));
}

#[test]
fn from_parts_accepts_empty() {
    let c = Contract::from_parts(vec![], vec![], vec![]).unwrap();
    assert!(c.get_feedbacks(s("w")).is_none());
}

#[test]
fn from_parts_rejects_repeated_widget() {
    let fb = vec![(s("w"), vec![s("a said x ")]), (s("w"), vec![s("b said y ")])];
    assert!(Contract::from_parts(fb, vec![], vec![]).is_none());
    let rt = vec![(s("w"), vec![(1, 1)]), (s("w"), vec![(2, 1)])];
    assert!(Contract::from_parts(vec![], rt, vec![s("a"), s("b")]).is_none());
}

#[test]
fn from_parts_rejects_empty_entries() {
    assert!(Contract::from_parts(vec![(s("w"), vec![])], vec![], vec![]).is_none());
    assert!(Contract::from_parts(vec![], vec![(s("w"), vec![])], vec![]).is_none());
}

#[test]
fn from_parts_rejects_counts_out_of_place() {
    let rt = vec![(s("w"), vec![(5, 1), (3, 3)])];
    assert!(Contract::from_parts(vec![], rt, vec![s("a"), s("b")]).is_none());
    let rt = vec![(s("w"), vec![(5, 2)])];
    assert!(Contract::from_parts(vec![], rt, vec![s("a")]).is_none());
    let rt = vec![(s("w"), vec![(5, 1), (3, 2)])];
    assert!(Contract::from_parts(vec![], rt, vec![s("a"), s("b")]).is_some());
}
