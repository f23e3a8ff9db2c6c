//! Which conditional-formatting rules apply to one cell, and in which order.
//!
//! A worksheet holds a list of `conditionalFormatting` blocks, and a rule's `@priority` is not
//! scoped to its block: the rules that apply to a cell are merged across every block whose range
//! covers it and ordered by priority, lower first. Priorities are taken as the file wrote them —
//! gaps and duplicates included — and never renumbered; rules sharing a priority keep the order
//! they were read in, block by block and rule by rule.
//!
//! `stopIfTrue` is reported as a position, not applied as a truncation: the stop holds only when
//! the rule evaluates to true, and nothing here evaluates anything.

use vstd::prelude::*;

verus! {

/// One rule that applies to a cell, where in the sheet it was found, and what it says of the
/// order: its `@priority` and its `@stopIfTrue`.
#[derive(Debug, Clone, Copy)]
pub struct AppliedConditionalRule {
    block_index: usize,
    rule_index: usize,
    priority: i32,
    stops: bool,
}

impl AppliedConditionalRule {
    /// The rule at `rule_index` of the block at `block_index`, both counted from zero in document
    /// order, with the priority and the stop flag the file gives it.
    pub fn new(block_index: usize, rule_index: usize, priority: i32, stops: bool) -> (rule: Self)
        ensures
            rule.spec_block_index() == block_index,
            rule.spec_rule_index() == rule_index,
            rule.spec_priority() == priority,
            rule.spec_stops() == stops,
    {
        AppliedConditionalRule { block_index, rule_index, priority, stops }
    }

    /// The block the rule came from.
    pub closed spec fn spec_block_index(self) -> usize {
        self.block_index
    }

    /// The rule's place in its block.
    pub closed spec fn spec_rule_index(self) -> usize {
        self.rule_index
    }

    /// The rule's `@priority`.
    pub closed spec fn spec_priority(self) -> i32 {
        self.priority
    }

    /// The rule's `@stopIfTrue`.
    pub closed spec fn spec_stops(self) -> bool {
        self.stops
    }

    /// `@priority`, exactly as the file wrote it. Lower wins; nothing here renumbers.
    pub fn priority(&self) -> (priority: i32)
        ensures
            priority == self.spec_priority(),
    {
        self.priority
    }

    /// Which `x:conditionalFormatting` block this rule came from, counting from zero in document
    /// order.
    pub fn block_index(&self) -> (index: usize)
        ensures
            index == self.spec_block_index(),
    {
        self.block_index
    }

    /// Which `x:cfRule` of that block this is, counting from zero in document order.
    pub fn rule_index(&self) -> (index: usize)
        ensures
            index == self.spec_rule_index(),
    {
        self.rule_index
    }

    /// `@stopIfTrue` — whether a consumer that found this rule true would consider no rule of
    /// lower priority.
    pub fn stops_lower_priority_rules(&self) -> (stops: bool)
        ensures
            stops == self.spec_stops(),
    {
        self.stops
    }
}

/// The first position from `from` on in `rules` holding a priority above `priority`, or the
/// length of `rules`: where a rule of that priority goes after every rule it does not outrank.
pub open spec fn first_above(rules: Seq<AppliedConditionalRule>, priority: i32, from: int) -> int
    decreases rules.len() - from,
{
    if from < 0 || from >= rules.len() {
        rules.len() as int
    } else if rules[from].spec_priority() > priority {
        from
    } else {
        first_above(rules, priority, from + 1)
    }
}

/// `rules` in priority order, lower first, rules of equal priority in the order given: each rule
/// in turn placed after every earlier one whose priority is not above its own.
pub open spec fn priority_order(rules: Seq<AppliedConditionalRule>) -> Seq<AppliedConditionalRule>
    decreases rules.len(),
{
    if rules.len() == 0 {
        Seq::empty()
    } else {
        let sorted = priority_order(rules.drop_last());
        sorted.insert(first_above(sorted, rules.last().spec_priority(), 0), rules.last())
    }
}

/// The first position from `from` on in `rules` whose rule carries `stopIfTrue`, or `None`.
pub open spec fn first_stopping(rules: Seq<AppliedConditionalRule>, from: int) -> Option<int>
    decreases rules.len() - from,
{
    if from < 0 || from >= rules.len() {
        None
    } else if rules[from].spec_stops() {
        Some(from)
    } else {
        first_stopping(rules, from + 1)
    }
}

/// Whether the priorities of `rules` never go down.
pub open spec fn priorities_ascend(rules: Seq<AppliedConditionalRule>) -> bool {
    forall|i: int, j: int|
        0 <= i < j < rules.len() ==> (#[trigger] rules[i]).spec_priority() <= (
        #[trigger] rules[j]).spec_priority()
}

/// `first_above` lies between `from` and the end, with only priorities not above `priority`
/// before it and one above it there.
proof fn lemma_first_above(rules: Seq<AppliedConditionalRule>, priority: i32, from: int)
    requires
        0 <= from <= rules.len(),
    ensures
        from <= first_above(rules, priority, from) <= rules.len(),
        forall|i: int|
            from <= i < first_above(rules, priority, from) ==> (#[trigger] rules[i]).spec_priority()
                <= priority,
        first_above(rules, priority, from) < rules.len() ==> rules[first_above(
            rules,
            priority,
            from,
        )].spec_priority() > priority,
    decreases rules.len() - from,
{
    if from < rules.len() && rules[from].spec_priority() <= priority {
        lemma_first_above(rules, priority, from + 1);
    }
}

/// `first_stopping` finds a stopping rule at or after `from`, with none before it.
proof fn lemma_first_stopping(rules: Seq<AppliedConditionalRule>, from: int)
    requires
        0 <= from <= rules.len(),
    ensures
        first_stopping(rules, from) matches Some(at) ==> from <= at < rules.len()
            && rules[at].spec_stops() && forall|i: int|
            from <= i < at ==> !(#[trigger] rules[i]).spec_stops(),
        first_stopping(rules, from) is None ==> forall|i: int|
            from <= i < rules.len() ==> !(#[trigger] rules[i]).spec_stops(),
    decreases rules.len() - from,
{
    if from < rules.len() && !rules[from].spec_stops() {
        lemma_first_stopping(rules, from + 1);
    }
}

/// **The chain is in priority order and loses no rule.** Ordering rules by priority gives as many
/// rules as were given, each of them one that was given, with priorities that never go down.
pub proof fn law_priority_order_ascends(rules: Seq<AppliedConditionalRule>)
    ensures
        priority_order(rules).len() == rules.len(),
        priorities_ascend(priority_order(rules)),
        forall|i: int|
            0 <= i < rules.len() ==> exists|j: int|
                0 <= j < rules.len() && #[trigger] priority_order(rules)[i] == rules[j],
    decreases rules.len(),
{
    if rules.len() > 0 {
        let rest = rules.drop_last();
        law_priority_order_ascends(rest);
        let sorted = priority_order(rest);
        let last = rules.last();
        let at = first_above(sorted, last.spec_priority(), 0);
        lemma_first_above(sorted, last.spec_priority(), 0);
        let grown = sorted.insert(at, last);
        assert forall|i: int, j: int| 0 <= i < j < grown.len() implies (
        #[trigger] grown[i]).spec_priority() <= (#[trigger] grown[j]).spec_priority() by {
            if j < at {
                assert(sorted[i].spec_priority() <= sorted[j].spec_priority());
            } else if j == at {
                assert(grown[i] == sorted[i]);
            } else if i == at {
                assert(grown[j] == sorted[j - 1]);
            } else if i < at {
                assert(sorted[i].spec_priority() <= sorted[j - 1].spec_priority());
            } else {
                assert(sorted[i - 1].spec_priority() <= sorted[j - 1].spec_priority());
            }
        }
        assert forall|i: int| 0 <= i < rules.len() implies exists|j: int|
            0 <= j < rules.len() && #[trigger] grown[i] == rules[j] by {
            if i == at {
                assert(grown[i] == rules[rules.len() - 1]);
            } else {
                let i0 = if i < at { i } else { i - 1 };
                assert(grown[i] == sorted[i0]);
                let j0 = choose|j: int| 0 <= j < rest.len() && sorted[i0] == rest[j];
                assert(rest[j0] == rules[j0]);
            }
        }
    }
}

/// Whether a rule carries the priority `priority`.
pub open spec fn has_priority(priority: i32) -> spec_fn(AppliedConditionalRule) -> bool {
    |rule: AppliedConditionalRule| rule.spec_priority() == priority
}

/// Rules none of which carries `priority` keep none when filtered on it.
proof fn lemma_filter_none(rules: Seq<AppliedConditionalRule>, priority: i32)
    requires
        forall|i: int| 0 <= i < rules.len() ==> (#[trigger] rules[i]).spec_priority() != priority,
    ensures
        rules.filter(has_priority(priority)) == Seq::<AppliedConditionalRule>::empty(),
    decreases rules.len(),
{
    reveal(Seq::filter);
    if rules.len() > 0 {
        lemma_filter_none(rules.drop_last(), priority);
        assert(rules.filter(has_priority(priority)) =~= Seq::<AppliedConditionalRule>::empty());
    }
}

/// **Rules of equal priority keep the order they were given in.** For every priority, the rules
/// of the chain carrying it are exactly the given rules carrying it, in the same order.
pub proof fn law_equal_priorities_keep_their_order(rules: Seq<AppliedConditionalRule>, priority: i32)
    ensures
        priority_order(rules).filter(has_priority(priority)) == rules.filter(has_priority(priority)),
    decreases rules.len(),
{
    reveal(Seq::filter);
    if rules.len() > 0 {
        let f = has_priority(priority);
        let rest = rules.drop_last();
        law_equal_priorities_keep_their_order(rest, priority);
        law_priority_order_ascends(rest);
        let sorted = priority_order(rest);
        let last = rules.last();
        let at = first_above(sorted, last.spec_priority(), 0);
        lemma_first_above(sorted, last.spec_priority(), 0);
        let front = sorted.subrange(0, at);
        let back = sorted.subrange(at, sorted.len() as int);
        assert(sorted =~= front + back);
        assert(sorted.insert(at, last) =~= front + seq![last] + back);
        Seq::filter_distributes_over_add(front, back, f);
        Seq::filter_distributes_over_add(front, seq![last], f);
        Seq::filter_distributes_over_add(front + seq![last], back, f);
        assert(seq![last].drop_last() =~= Seq::<AppliedConditionalRule>::empty());
        assert(rules =~= rest.push(last));
        if last.spec_priority() == priority {
            assert forall|i: int| 0 <= i < back.len() implies (#[trigger] back[i]).spec_priority()
                != priority by {
                assert(back[i] == sorted[at + i]);
                assert(sorted[at].spec_priority() <= sorted[at + i].spec_priority());
            }
            lemma_filter_none(back, priority);
            assert(priority_order(rules).filter(f) =~= rules.filter(f));
        } else {
            let empty = Seq::<AppliedConditionalRule>::empty();
            assert(empty.filter(f) == empty);
            assert(seq![last].drop_last() == empty);
            assert(!f(seq![last].last()));
            assert(seq![last].filter(f) == seq![last].drop_last().filter(f));
            assert(seq![last].filter(f) =~= empty);
            assert(priority_order(rules).filter(f) =~= rules.filter(f));
        }
    }
}

/// Every rule that applies to one cell, merged across blocks and ordered by `@priority`.
#[derive(Debug, Clone)]
pub struct ConditionalRuleChain {
    rules: Vec<AppliedConditionalRule>,
    first_stopping_rule: Option<usize>,
}

impl View for ConditionalRuleChain {
    type V = Seq<AppliedConditionalRule>;

    closed spec fn view(&self) -> Seq<AppliedConditionalRule> {
        self.rules@
    }
}

impl ConditionalRuleChain {
    /// The position of the first stopping rule.
    pub closed spec fn spec_first_stopping_rule(&self) -> Option<usize> {
        self.first_stopping_rule
    }

    /// The chain of `applicable` — every rule whose block covers the cell, block by block in
    /// document order and rule by rule within each block — ordered by priority, lower first, with
    /// rules of equal priority in the order given. Nothing is renumbered, and no rule is dropped
    /// for following a stopping one.
    pub fn ordered(applicable: Vec<AppliedConditionalRule>) -> (chain: Self)
        ensures
            chain@ == priority_order(applicable@),
            chain.spec_first_stopping_rule() == match first_stopping(chain@, 0) {
                Some(at) => Some(at as usize),
                None => None::<usize>,
            },
    {
        let mut rules: Vec<AppliedConditionalRule> = Vec::new();
        let mut n: usize = 0;
        while n < applicable.len()
            invariant
                n <= applicable@.len(),
                rules@ == priority_order(applicable@.subrange(0, n as int)),
                rules@.len() == n,
            decreases applicable@.len() - n,
        {
            let rule = applicable[n];
            let mut at: usize = 0;
            proof {
                lemma_first_above(rules@, rule.spec_priority(), 0);
            }
            while at < rules.len() && rules[at].priority <= rule.priority
                invariant
                    at <= rules@.len(),
                    first_above(rules@, rule.spec_priority(), 0) == first_above(
                        rules@,
                        rule.spec_priority(),
                        at as int,
                    ),
                decreases rules@.len() - at,
            {
                at = at + 1;
            }
            proof {
                let seen = applicable@.subrange(0, n + 1);
                assert(seen.drop_last() =~= applicable@.subrange(0, n as int));
                assert(seen.last() == rule);
            }
            rules.insert(at, rule);
            n = n + 1;
        }
        proof {
            assert(applicable@.subrange(0, n as int) =~= applicable@);
        }
        let mut first_stopping_rule: Option<usize> = None;
        let mut position: usize = 0;
        while position < rules.len() && first_stopping_rule.is_none()
            invariant
                position <= rules@.len(),
                first_stopping_rule is None ==> first_stopping(rules@, 0) == first_stopping(
                    rules@,
                    position as int,
                ),
                first_stopping_rule matches Some(at) ==> first_stopping(rules@, 0) == Some(at as int),
            decreases rules@.len() - position,
        {
            if rules[position].stops {
                first_stopping_rule = Some(position);
            }
            position = position + 1;
        }
        ConditionalRuleChain { rules, first_stopping_rule }
    }

    /// The rules, highest priority first — that is, ascending `@priority`.
    pub fn rules(&self) -> (rules: &[AppliedConditionalRule])
        ensures
            rules@ == self@,
    {
        self.rules.as_slice()
    }

    /// How many rules apply to the cell.
    pub fn len(&self) -> (count: usize)
        ensures
            count == self@.len(),
    {
        self.rules.len()
    }

    /// Whether no rule applies to the cell.
    pub fn is_empty(&self) -> (empty: bool)
        ensures
            empty == (self@.len() == 0),
    {
        self.rules.len() == 0
    }

    /// The position in [`rules`](Self::rules) of the first rule carrying `stopIfTrue="1"`, or
    /// `None` when none does. A position, not a truncation: every applicable rule is still in the
    /// chain.
    pub fn first_stopping_rule(&self) -> (at: Option<usize>)
        ensures
            at == self.spec_first_stopping_rule(),
    {
        self.first_stopping_rule
    }
}

} // verus!
