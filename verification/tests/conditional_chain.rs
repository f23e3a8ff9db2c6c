use mjx_sml::features::conditional_chain::{AppliedConditionalRule, ConditionalRuleChain};

fn rule(block: usize, index: usize, priority: i32, stops: bool) -> AppliedConditionalRule {
    AppliedConditionalRule::new(block, index, priority, stops)
}

fn order(chain: &ConditionalRuleChain) -> Vec<(usize, usize, i32)> {
    chain
        .rules()
        .iter()
        .map(|r| (r.block_index(), r.rule_index(), r.priority()))
        .collect()
}

#[test]
fn rules_from_several_blocks_interleave_by_priority() {
    // Three blocks holding priorities 1 and 4, 2, and 3: the cell is governed by 1, 2, 3, 4.
    let applicable = vec![rule(0, 0, 1, false), rule(0, 1, 4, false), rule(1, 0, 2, false), rule(2, 0, 3, false)];
    let chain = ConditionalRuleChain::ordered(applicable);
    assert_eq!(order(&chain), vec![(0, 0, 1), (1, 0, 2), (2, 0, 3), (0, 1, 4)]);
    assert_eq!(chain.len(), 4);
    assert!(!chain.is_empty());
    assert_eq!(chain.first_stopping_rule(), None);
}

#[test]
fn equal_priorities_keep_the_order_they_were_read_in_and_gaps_stay() {
    let applicable = vec![rule(0, 0, 7, false), rule(0, 1, 3, false), rule(1, 0, 7, false), rule(1, 1, 3, false)];
    let chain = ConditionalRuleChain::ordered(applicable);
    assert_eq!(order(&chain), vec![(0, 1, 3), (1, 1, 3), (0, 0, 7), (1, 0, 7)]);
}

#[test]
fn a_stopping_rule_is_reported_as_a_position_and_nothing_is_dropped() {
    let applicable = vec![rule(0, 0, 5, true), rule(0, 1, 2, false), rule(1, 0, 3, true)];
    let chain = ConditionalRuleChain::ordered(applicable);
    assert_eq!(order(&chain), vec![(0, 1, 2), (1, 0, 3), (0, 0, 5)]);
    assert_eq!(chain.first_stopping_rule(), Some(1));
    assert!(chain.rules()[1].stops_lower_priority_rules());
}

#[test]
fn no_applicable_rule_is_an_empty_chain() {
    let chain = ConditionalRuleChain::ordered(Vec::new());
    assert!(chain.is_empty());
    assert_eq!(chain.len(), 0);
    assert_eq!(chain.first_stopping_rule(), None);
}
