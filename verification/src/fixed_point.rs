//! What holds of every run of a rule tree: a run that reports no change
//! leaves the list as it was, a group that ends by itself ends at a fixed
//! point, and in a group an earlier rule that can fire fires first.
use crate::meta::{each_once, group_run, none_fires, restart_limit, run, run_once, Node, RuleView};
use crate::sequence::{fires_at, first_matched, matched, sweep_fires, swept, Pattern, TestModel};
use crate::token::TokenView;
use crate::transform::{replaced, splice, ActionView};
use vstd::prelude::*;

verus! {

/// A sweep that rewrites nothing leaves the list as it was.
pub proof fn lemma_idle_sweep<L, P: TestModel<L>>(
    p: Pattern<P>,
    action: ActionView<L>,
    tokens: Seq<TokenView<L>>,
    index: nat,
)
    requires
        !sweep_fires(p, tokens, index),
    ensures
        swept(p, action, tokens, index) == tokens,
    decreases tokens.len() - index,
{
    if index < tokens.len() {
        lemma_idle_sweep(p, action, tokens, index + 1);
    }
}

/// What a sweep that deletes the tokens of which a test holds leaves from
/// `index` on: the tokens before `index` as they were, and behind them no
/// token of which the test holds.
proof fn lemma_delete_sweep<L, P: TestModel<L>>(test: P, tokens: Seq<TokenView<L>>, index: nat)
    requires
        index <= tokens.len(),
    ensures
        ({
            let after = swept(Pattern::First(test), ActionView::Delete, tokens, index);
            &&& index <= after.len()
            &&& forall|k: int| 0 <= k < index ==> after[k] == tokens[k]
            &&& forall|k: int| index <= k < after.len() ==> !test.holds(#[trigger] after[k])
        }),
    decreases tokens.len() - index,
{
    let p = Pattern::First(test);
    if index < tokens.len() {
        let rest = tokens.subrange(index as int, tokens.len() as int);
        assert(rest[0] == tokens[index as int]);
        assert(matched(p, rest) == first_matched(test, rest));
        if test.holds(tokens[index as int]) {
            assert(fires_at(p, tokens, index as int) == Some(1nat));
            let out = replaced(
                ActionView::<L>::Delete,
                tokens.subrange(index as int, index as int + 1),
            );
            let next = splice(tokens, index as int, 1, out);
            assert(next.len() == tokens.len() - 1);
            lemma_delete_sweep(test, next, index);
            assert forall|k: int| 0 <= k < index implies next[k] == tokens[k] by {}
        } else {
            assert(fires_at(p, tokens, index as int) is None);
            lemma_delete_sweep(test, tokens, index + 1);
        }
    }
}

/// On a list that holds no token of which the test holds, from `index` on,
/// the rule fires nowhere from there on.
proof fn lemma_nothing_to_delete<L, P: TestModel<L>>(test: P, tokens: Seq<TokenView<L>>, index: nat)
    requires
        forall|k: int| index <= k < tokens.len() ==> !test.holds(#[trigger] tokens[k]),
    ensures
        !sweep_fires(Pattern::First(test), tokens, index),
    decreases tokens.len() - index,
{
    if index < tokens.len() {
        let rest = tokens.subrange(index as int, tokens.len() as int);
        assert(rest[0] == tokens[index as int]);
        assert(matched(Pattern::First(test), rest) == first_matched(test, rest));
        lemma_nothing_to_delete(test, tokens, index + 1);
    }
}

/// Deleting by a test of one token settles in one sweep: after a sweep that
/// deletes every token of which the test holds, the rule fires nowhere, and
/// a further sweep leaves the list as it is.
pub proof fn law_delete_sweep_settles<L, P: TestModel<L>>(test: P, tokens: Seq<TokenView<L>>)
    ensures
        ({
            let rule = Pattern::First(test);
            let after = swept(rule, ActionView::Delete, tokens, 0);
            !sweep_fires(rule, after, 0) && swept(rule, ActionView::Delete, after, 0) == after
        }),
{
    let rule = Pattern::First(test);
    let after = swept(rule, ActionView::<L>::Delete, tokens, 0);
    lemma_delete_sweep(test, tokens, 0);
    lemma_nothing_to_delete(test, after, 0);
    lemma_idle_sweep(rule, ActionView::<L>::Delete, after, 0);
}

/// A run that reports no change leaves the token list as it was, in the
/// ordinary way of running and in a single pass.
pub proof fn lemma_idle_run(rule: RuleView, tokens: Seq<Node>)
    ensures
        !run(rule, tokens).changed ==> run(rule, tokens).tokens == tokens,
        !run_once(rule, tokens).changed ==> run_once(rule, tokens).tokens == tokens,
    decreases rule, 0nat, 0nat,
{
    match rule {
        RuleView::Leaf(p, action) => {
            if !sweep_fires(p, tokens, 0) {
                lemma_idle_sweep(p, action, tokens, 0);
            }
        },
        RuleView::Branch(children) => {
            lemma_idle_group(children, tokens, 0, restart_limit());
            lemma_idle_pass(children, tokens, 0);
        },
        RuleView::Once(inner) => {
            lemma_idle_run(*inner, tokens);
        },
    }
}

/// A single pass over a group that reports no change leaves the token list
/// as it was.
pub proof fn lemma_idle_pass(children: Seq<RuleView>, tokens: Seq<Node>, i: nat)
    ensures
        !each_once(children, tokens, i).changed ==> each_once(children, tokens, i).tokens == tokens,
    decreases children, children.len() - i, 0nat,
{
    if i < children.len() {
        let step = run_once(children[i as int], tokens);
        lemma_idle_run(children[i as int], tokens);
        if !step.changed {
            lemma_idle_pass(children, step.tokens, i + 1);
        }
    }
}

/// A group that reports no change leaves the token list as it was.
pub proof fn lemma_idle_group(children: Seq<RuleView>, tokens: Seq<Node>, i: nat, restarts: nat)
    ensures
        !group_run(children, tokens, i, restarts).changed ==> group_run(
            children,
            tokens,
            i,
            restarts,
        ).tokens == tokens,
    decreases children, restarts, children.len() - i,
{
    if i < children.len() {
        let step = run(children[i as int], tokens);
        lemma_idle_run(children[i as int], tokens);
        if !step.changed {
            lemma_idle_group(children, step.tokens, i + 1, restarts);
        }
    }
}

/// A group that ends without using up its restarts ends at a fixed point:
/// none of its rules reports a change on the list that it leaves.
pub proof fn law_group_ends_at_fixed_point(children: Seq<RuleView>, tokens: Seq<Node>)
    requires
        !run(RuleView::Branch(children), tokens).exhausted,
    ensures
        none_fires(children, run(RuleView::Branch(children), tokens).tokens),
{
    lemma_fixed_point_from(children, tokens, 0, restart_limit());
}

/// The same of a run that has come to its `i`th rule with the rules before
/// it at rest.
pub proof fn lemma_fixed_point_from(
    children: Seq<RuleView>,
    tokens: Seq<Node>,
    i: nat,
    restarts: nat,
)
    requires
        !group_run(children, tokens, i, restarts).exhausted,
        forall|k: int| 0 <= k < i && k < children.len() ==> !(#[trigger] run(
            children[k],
            tokens,
        )).changed,
    ensures
        none_fires(children, group_run(children, tokens, i, restarts).tokens),
    decreases children, restarts, children.len() - i,
{
    if i < children.len() {
        let step = run(children[i as int], tokens);
        if step.changed {
            lemma_fixed_point_from(children, step.tokens, 0, (restarts - 1) as nat);
        } else {
            lemma_idle_run(children[i as int], tokens);
            lemma_fixed_point_from(children, step.tokens, i + 1, restarts);
        }
    }
}

/// Earlier rules have first refusal: where the rules before the `i`th are at
/// rest and the `i`th reports a change, the group rewrites with the `i`th
/// and then starts over from its first rule, with one restart less.
pub proof fn law_group_first_refusal(
    children: Seq<RuleView>,
    tokens: Seq<Node>,
    i: nat,
    restarts: nat,
)
    requires
        i < children.len(),
        restarts > 0,
        forall|k: int| 0 <= k < i ==> !(#[trigger] run(children[k], tokens)).changed,
        run(children[i as int], tokens).changed,
    ensures
        group_run(children, tokens, 0, restarts).tokens == group_run(
            children,
            run(children[i as int], tokens).tokens,
            0,
            (restarts - 1) as nat,
        ).tokens,
        group_run(children, tokens, 0, restarts).changed,
{
    lemma_skip_idle(children, tokens, 0, i, restarts);
}

/// A group passes over rules at rest without a change to the list.
pub proof fn lemma_skip_idle(
    children: Seq<RuleView>,
    tokens: Seq<Node>,
    from: nat,
    to: nat,
    restarts: nat,
)
    requires
        from <= to <= children.len(),
        forall|k: int| from <= k < to ==> !(#[trigger] run(children[k], tokens)).changed,
    ensures
        group_run(children, tokens, from, restarts).tokens == group_run(
            children,
            tokens,
            to,
            restarts,
        ).tokens,
        group_run(children, tokens, from, restarts).changed == group_run(
            children,
            tokens,
            to,
            restarts,
        ).changed,
    decreases to - from,
{
    if from < to {
        lemma_idle_run(children[from as int], tokens);
        lemma_skip_idle(children, tokens, from + 1, to, restarts);
    }
}

/// A group at rest stays at rest: where none of its rules reports a change
/// on a list, the run of the group reports none, leaves the list as it is
/// and ends finished.
pub proof fn law_group_at_rest(children: Seq<RuleView>, tokens: Seq<Node>)
    requires
        none_fires(children, tokens),
    ensures
        !run(RuleView::Branch(children), tokens).changed,
        run(RuleView::Branch(children), tokens).tokens == tokens,
        !run(RuleView::Branch(children), tokens).exhausted,
{
    lemma_skip_idle(children, tokens, 0, children.len(), restart_limit());
    lemma_unfinished_reports_change(RuleView::Branch(children), tokens);
}

/// A group reports a change exactly where one of its rules reports a change
/// on the list that the group starts with.
pub proof fn law_group_reports_change(children: Seq<RuleView>, tokens: Seq<Node>)
    ensures
        run(RuleView::Branch(children), tokens).changed == !none_fires(children, tokens),
{
    if none_fires(children, tokens) {
        law_group_at_rest(children, tokens);
    } else {
        let k = choose|k: int| 0 <= k < children.len() && run(children[k], tokens).changed;
        lemma_some_rule_fires(children, tokens, 0, k as nat, restart_limit());
    }
}

/// A group that comes to its `i`th rule on a list on which a rule at or
/// behind the `i`th reports a change reports a change.
proof fn lemma_some_rule_fires(
    children: Seq<RuleView>,
    tokens: Seq<Node>,
    i: nat,
    k: nat,
    restarts: nat,
)
    requires
        i <= k < children.len(),
        run(children[k as int], tokens).changed,
    ensures
        group_run(children, tokens, i, restarts).changed,
    decreases k - i,
{
    let step = run(children[i as int], tokens);
    if !step.changed {
        lemma_idle_run(children[i as int], tokens);
        lemma_some_rule_fires(children, tokens, i + 1, k, restarts);
    }
}

/// A run that ends unfinished reports a change, in the ordinary way of
/// running and in a single pass.
pub proof fn lemma_unfinished_reports_change(rule: RuleView, tokens: Seq<Node>)
    ensures
        run(rule, tokens).exhausted ==> run(rule, tokens).changed,
        run_once(rule, tokens).exhausted ==> run_once(rule, tokens).changed,
    decreases rule, 0nat, 0nat,
{
    match rule {
        RuleView::Leaf(p, action) => {},
        RuleView::Branch(children) => {
            lemma_unfinished_group(children, tokens, 0, restart_limit());
            lemma_unfinished_pass(children, tokens, 0);
        },
        RuleView::Once(inner) => {
            lemma_unfinished_reports_change(*inner, tokens);
        },
    }
}

proof fn lemma_unfinished_group(children: Seq<RuleView>, tokens: Seq<Node>, i: nat, restarts: nat)
    ensures
        group_run(children, tokens, i, restarts).exhausted ==> group_run(
            children,
            tokens,
            i,
            restarts,
        ).changed,
    decreases children, restarts, children.len() - i,
{
    if i < children.len() {
        let step = run(children[i as int], tokens);
        lemma_unfinished_reports_change(children[i as int], tokens);
        if !step.changed {
            lemma_unfinished_group(children, step.tokens, i + 1, restarts);
        }
    }
}

proof fn lemma_unfinished_pass(children: Seq<RuleView>, tokens: Seq<Node>, i: nat)
    ensures
        each_once(children, tokens, i).exhausted ==> each_once(children, tokens, i).changed,
    decreases children, children.len() - i, 0nat,
{
    if i < children.len() {
        let step = run_once(children[i as int], tokens);
        lemma_unfinished_reports_change(children[i as int], tokens);
        lemma_unfinished_pass(children, step.tokens, i + 1);
    }
}

} // verus!
