use kartei::card::Card;
use kartei::search::{best_hit, occurs_in, order_hits, rank, sort_key};

fn card(text: &str) -> Card {
    Card::parse(text.as_bytes()).unwrap()
}

#[test]
fn hits_are_ordered_best_first_and_stable() {
    assert_eq!(order_hits(&[Some(3), None, Some(5), Some(3), Some(0)]), [2, 0, 3, 4]);
    assert!(order_hits(&[None, None]).is_empty());
}

#[test]
fn fuzzy_scores_rank_above_a_phone_match() {
    assert_eq!(best_hit(&[Some(3), None, Some(7)], false), Some(8));
    assert_eq!(best_hit(&[None, None], true), Some(0));
    assert_eq!(best_hit(&[], false), None);
    assert_eq!(best_hit(&[Some(0)], true), Some(1));
}

#[test]
fn substrings_are_found() {
    let s: Vec<char> = "4917012345".chars().collect();
    assert!(occurs_in(&s, &['1', '7', '0']));
    assert!(!occurs_in(&s, &['7', '7']));
    assert!(occurs_in(&s, &[]));
}

#[test]
fn rank_finds_fuzzy_matches_and_phone_digits() {
    let john = card("BEGIN:VCARD\r\nN:Smith;John;;;\r\nFN:John Smith\r\nTEL:+1 555 0100\r\nEND:VCARD\r\n");
    let jane = card("BEGIN:VCARD\r\nFN:Jane Roe\r\nEMAIL:jane@example.org\r\nTEL:+1 555 0199\r\nEND:VCARD\r\n");
    let cards = [&john, &jane];
    assert_eq!(rank(&cards, ""), [0, 1]);
    assert_eq!(rank(&cards, "jhn smth"), [0]);
    assert_eq!(rank(&cards, "example"), [1]);
    assert_eq!(rank(&cards, "555 01"), [0, 1]);
    assert_eq!(rank(&cards, "0199"), [1]);
    assert!(rank(&cards, "zzz").is_empty());
}

#[test]
fn sort_key_uses_names_or_the_display_name() {
    let named = card("BEGIN:VCARD\r\nN:Adams;Anna;;;\r\nFN:Anna Adams\r\nEND:VCARD\r\n");
    assert_eq!(sort_key(&named), ("adams".into(), "anna".into(), "anna adams".into()));
    let company = card("BEGIN:VCARD\r\nN:;;;;\r\nFN:ACME Plumbing\r\nEND:VCARD\r\n");
    assert_eq!(sort_key(&company), ("acme plumbing".into(), String::new(), String::new()));
}
