use advent_calendar::print_queue::{
    middle_page, read_queue, sum_middles, to_update, try_arrangement, RuleSet,
};
use std::collections::HashMap;

const QUEUE: &str = "47|53\n97|13\n97|61\n97|47\n75|29\n61|13\n75|53\n29|13\n97|29\n53|29\n61|53\n97|53\n61|29\n47|13\n75|47\n97|75\n47|61\n75|61\n47|29\n75|13\n53|13\n\n75,47,61,53,29\n97,61,53,29,13\n75,29,13\n75,97,47,61,53\n61,13,29\n97,13,75,29,47\n";

fn order_of(update: &HashMap<u32, u32>) -> Vec<u32> {
    let mut pages: Vec<(u32, u32)> = update.iter().map(|(page, at)| (*at, *page)).collect();
    pages.sort();
    pages.into_iter().map(|(_, page)| page).collect()
}

#[test]
fn example_queue() {
    let (rules, updates) = read_queue(QUEUE).unwrap();
    assert_eq!(updates.len(), 6);
    let outcomes = rules.process_rulesets(&updates).unwrap();
    let valid: Vec<bool> = outcomes.iter().map(|o| o.valid).collect();
    assert_eq!(valid, vec![true, true, true, false, false, false]);
    let middles: Vec<u32> = outcomes.iter().map(|o| o.middle).collect();
    assert_eq!(middles, vec![61, 53, 29, 47, 29, 47]);
    assert_eq!(sum_middles(&outcomes, false), 143);
    assert_eq!(sum_middles(&outcomes, true), 123);
}

#[test]
fn example_updates_are_put_in_order() {
    let (rules, updates) = read_queue(QUEUE).unwrap();
    let fixed = rules.fix_update_for_ruleset(&to_update(&updates[3]));
    assert_eq!(order_of(&fixed), vec![97, 75, 47, 61, 53]);
    let fixed = rules.fix_update_for_ruleset(&to_update(&updates[4]));
    assert_eq!(order_of(&fixed), vec![61, 29, 13]);
    let fixed = rules.fix_update_for_ruleset(&to_update(&updates[5]));
    assert_eq!(order_of(&fixed), vec![97, 75, 47, 29, 13]);
    assert!(rules.is_update_valid(&fixed));
    // an update that obeys the rules stays as it is
    let fixed = rules.fix_update_for_ruleset(&to_update(&updates[0]));
    assert_eq!(order_of(&fixed), updates[0]);
}

#[test]
fn rules_about_other_pages_do_not_matter() {
    let mut page_rules = HashMap::new();
    page_rules.insert(1, vec![2, 9]);
    page_rules.insert(8, vec![1]);
    let rules = RuleSet { page_rules };
    assert!(rules.is_update_valid(&to_update(&vec![1, 2, 3])));
    assert!(rules.is_update_valid(&to_update(&vec![3, 1, 5])));
    assert!(!rules.is_update_valid(&to_update(&vec![2, 3, 1])));
    assert!(rules.is_update_valid(&HashMap::new()));
    assert_eq!(order_of(&rules.fix_update_for_ruleset(&to_update(&vec![2, 3, 1]))), vec![1, 3, 2]);
    assert!(rules.fix_update_for_ruleset(&HashMap::new()).is_empty());
}

#[test]
fn middle_of_an_update() {
    assert_eq!(middle_page(&to_update(&vec![7, 8, 9])), Some(8));
    assert_eq!(middle_page(&to_update(&vec![7, 8, 9, 10])), Some(9));
    assert_eq!(middle_page(&to_update(&vec![7])), Some(7));
    assert_eq!(middle_page(&HashMap::new()), None);
    // a page that is named twice keeps its last place
    let update = to_update(&vec![7, 8, 7]);
    assert_eq!(update.get(&7), Some(&2));
    assert_eq!(middle_page(&update), Some(8));
}

#[test]
fn malformed_queues_are_refused() {
    assert!(read_queue("1|2\n3-4\n\n1,2").is_none());
    assert!(read_queue("1|2\n\n1,b").is_none());
    assert!(read_queue("1|2\n\n1,,2").is_none());
    let (rules, updates) = read_queue("1|2\n1|3\n\n\n1,2\n\n3\n").unwrap();
    assert_eq!(rules.page_rules.get(&1), Some(&vec![2, 3]));
    assert_eq!(updates, vec![vec![1, 2], vec![3]]);
    let (rules, updates) = read_queue("").unwrap();
    assert!(rules.page_rules.is_empty());
    assert!(updates.is_empty());
}

#[test]
fn rules_in_a_circle_cannot_be_obeyed() {
    let mut page_rules = HashMap::new();
    page_rules.insert(1, vec![2]);
    page_rules.insert(2, vec![3]);
    page_rules.insert(3, vec![1]);
    let rules = RuleSet { page_rules };
    assert!(rules.try_fix_update_for_ruleset(&to_update(&vec![1, 2, 3])).is_none());
    assert!(rules.try_fix_update_for_ruleset(&to_update(&vec![3, 2, 1])).is_none());
    assert!(rules.process_rulesets(&vec![vec![1, 2, 3]]).is_none());
    // without one of the pages the circle is open
    let fixed = rules.try_fix_update_for_ruleset(&to_update(&vec![3, 2])).unwrap();
    assert_eq!(order_of(&fixed), vec![2, 3]);
    let outcomes = rules.process_rulesets(&vec![vec![1, 2], vec![3, 2, 9], vec![7]]).unwrap();
    let seen: Vec<(bool, u32)> = outcomes.iter().map(|o| (o.valid, o.middle)).collect();
    assert_eq!(seen, vec![(true, 2), (false, 3), (true, 7)]);
}

#[test]
fn a_rule_of_a_page_about_itself_asks_nothing() {
    let mut page_rules = HashMap::new();
    page_rules.insert(1, vec![1, 2]);
    let rules = RuleSet { page_rules };
    assert!(rules.is_update_valid(&to_update(&vec![1, 2])));
    let fixed = rules.try_fix_update_for_ruleset(&to_update(&vec![2, 1])).unwrap();
    assert_eq!(order_of(&fixed), vec![1, 2]);
}

#[test]
fn updates_that_cannot_be_processed() {
    let rules = RuleSet { page_rules: HashMap::new() };
    assert!(rules.process_rulesets(&vec![vec![1, 2, 1]]).is_none());
    assert!(rules.process_rulesets(&vec![vec![1], vec![]]).is_none());
    assert_eq!(rules.process_rulesets(&vec![]), Some(vec![]));
    let mut gaps = HashMap::new();
    gaps.insert(5, 0);
    gaps.insert(6, 2);
    assert_eq!(try_arrangement(&gaps), None);
    assert!(rules.try_fix_update_for_ruleset(&gaps).is_none());
    gaps.insert(7, 1);
    assert_eq!(try_arrangement(&gaps), Some(vec![5, 7, 6]));
    gaps.insert(8, 1);
    assert_eq!(try_arrangement(&gaps), None);
    assert_eq!(try_arrangement(&HashMap::new()), Some(vec![]));
}
