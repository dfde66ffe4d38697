//! The meta-compiler: a rule language whose source is tokenized and tagged by
//! the engine itself and then evaluated into matchers, actions and rule
//! trees.
pub use crate::describe::graph_with_tags;

use crate::fixed_point::{law_group_reports_change, lemma_fixed_point_from};
use crate::bootstrap::{bootstrap, bootstrap_rules};
use crate::chars::{char_text, control_code, decimal, is_control_code, is_white_space};
use crate::chars::{push_decimal, same_text, white_space};
use crate::sequence::{first_rewritten, pattern_of, replace_all_matches, replace_first_match};
use crate::sequence::{lemma_patterns_empty, lemma_patterns_push, patterns, ChooseSeq, MultipleSeq};
use crate::sequence::{OptionalSeq, RawSeq, RepeatedSeq};
use crate::sequence::{sweep_fires, swept, AnySeq, FirstTokenSeq, Pattern};
use crate::sequence::{TestModel, TokenTest};
use crate::token::{lemma_branch_view, lemma_member, KindView, Token, TokenType};
use crate::token::TokenView;
use crate::transform::{action_of, clone_keeps_view, forest_wf, ActionView, AnyTransform};
use crate::transform::{DeepTransform, RemoveTransform, ShallowTransform};
use crate::transform::Transform;
use vstd::prelude::*;

verus! {

/// The model of a label set: the tags, each as its characters.
pub type Tags = Seq<Seq<char>>;

/// The model of a token labelled with tags.
pub type Node = TokenView<Tags>;

/// The model of a test of one tagged token.
pub enum ProbeView {
    /// The token carries the tag.
    HasTag(Seq<char>),
    /// The token's content is one character whose code point lies between
    /// the two bounds, both included.
    Range(nat, nat),
    /// The token's content is not the text.
    Not(Seq<char>),
    /// The token's content begins with a white-space character.
    Whitespace,
}

impl TestModel<Tags> for ProbeView {
    open spec fn holds(&self, token: Node) -> bool {
        match *self {
            ProbeView::HasTag(tag) => token.labels.contains(tag),
            ProbeView::Range(lo, hi) => token.content().len() == 1 && lo <= token.content()[0] as nat
                <= hi,
            ProbeView::Not(text) => token.content() != text,
            ProbeView::Whitespace => token.content().len() > 0 && white_space(token.content()[0]),
        }
    }
}

/// A test of one token labelled with tags.
pub enum Probe {
    HasTag(String),
    Range(u32, u32),
    Not(String),
    Whitespace,
}

impl View for Probe {
    type V = ProbeView;

    open spec fn view(&self) -> ProbeView {
        match self {
            Probe::HasTag(tag) => ProbeView::HasTag(tag@),
            Probe::Range(lo, hi) => ProbeView::Range(*lo as nat, *hi as nat),
            Probe::Not(text) => ProbeView::Not(text@),
            Probe::Whitespace => ProbeView::Whitespace,
        }
    }
}

/// Whether a label set holds a tag.
pub fn tags_contain(tags: &Vec<String>, tag: &str) -> (r: bool)
    ensures
        r == tags.deep_view().contains(tag@),
{
    let mut i: usize = 0;
    while i < tags.len()
        invariant
            i <= tags.len(),
            forall|k: int| 0 <= k < i ==> tags.deep_view()[k] != tag@,
        decreases tags.len() - i,
    {
        assert(tags.deep_view()[i as int] == tags[i as int]@);
        if same_text(tags[i].as_str(), tag) {
            return true;
        }
        i += 1;
    }
    false
}

impl TokenTest<Vec<String>> for Probe {
    type Model = ProbeView;

    open spec fn model(&self) -> ProbeView {
        self@
    }

    fn test(&self, token: &Token<'_, Vec<String>>) -> (r: bool) {
        assert(token.deep_view().labels == token.data.deep_view());
        match self {
            Probe::HasTag(tag) => {
                let found = tags_contain(&token.data, tag.as_str());
                assert(self@.holds(token.deep_view()) == token.deep_view().labels.contains(tag@));
                found
            },
            Probe::Range(lo, hi) => {
                let content = token.content();
                if content.unicode_len() == 1 {
                    let c = content.get_char(0);
                    *lo <= c as u32 && c as u32 <= *hi
                } else {
                    false
                }
            },
            Probe::Not(text) => !same_text(token.content(), text.as_str()),
            Probe::Whitespace => {
                let content = token.content();
                content.unicode_len() > 0 && is_white_space(content.get_char(0))
            },
        }
    }
}

/// The matcher that consumes one token carrying `tag`.
pub fn has_tag(tag: &str) -> (r: FirstTokenSeq<Probe>)
    ensures
        r.predicate@ == ProbeView::HasTag(tag@),
{
    FirstTokenSeq::new(Probe::HasTag(tag.to_owned()))
}

/// The matcher that consumes one token carrying `tag`.
pub fn has_tag_owned(tag: String) -> (r: FirstTokenSeq<Probe>)
    ensures
        r.predicate@ == ProbeView::HasTag(tag@),
{
    FirstTokenSeq::new(Probe::HasTag(tag))
}

/// The matcher that consumes one token whose content is a single character
/// with a code point from `s` to `e`, both included.
pub fn raw_range(s: u32, e: u32) -> (r: FirstTokenSeq<Probe>)
    ensures
        r.predicate@ == ProbeView::Range(s as nat, e as nat),
{
    FirstTokenSeq::new(Probe::Range(s, e))
}

/// Every copy of a label set has the tags of the set itself.
pub proof fn lemma_tags_clone(data: Vec<String>)
    ensures
        clone_keeps_view(data),
{
    assert forall|copy: Vec<String>| cloned(data, copy) implies copy.deep_view()
        == data.deep_view() by {
        assert(copy.len() == data.len());
        assert forall|i: int| 0 <= i < data.len() implies copy[i] == data[i] by {
            assert(cloned::<String>(data[i], copy[i]));
        }
        assert(copy.deep_view() =~= data.deep_view());
    }
}

/// A tree of rules. A leaf is one rule, a matcher with an action. A branch is
/// a group of trees run to a fixed point, earlier ones first. `Once` marks a
/// tree to be run in a single pass.
pub enum RepTree {
    Leaf(AnySeq<Probe>, AnyTransform<Vec<String>>),
    Branch(Vec<RepTree>),
    Once(Box<RepTree>),
}

/// The model of a rule tree.
pub enum RuleView {
    Leaf(Pattern<ProbeView>, ActionView<Tags>),
    Branch(Seq<RuleView>),
    Once(Box<RuleView>),
}

impl View for RepTree {
    type V = RuleView;

    open spec fn view(&self) -> RuleView {
        rule_of(*self)
    }
}

/// The model of a rule tree.
pub open spec fn rule_of(tree: RepTree) -> RuleView
    decreases tree, 0nat,
{
    match tree {
        RepTree::Leaf(seq, action) => RuleView::Leaf(
            pattern_of::<Vec<String>, Probe>(seq),
            action_of(action),
        ),
        RepTree::Branch(children) => RuleView::Branch(rules_of(children, children.len() as nat)),
        RepTree::Once(inner) => RuleView::Once(Box::new(rule_of(*inner))),
    }
}

/// The models of the first `n` trees of a list, in order.
pub open spec fn rules_of(trees: Vec<RepTree>, n: nat) -> Seq<RuleView>
    decreases trees, n,
{
    if n == 0 || n > trees.len() {
        Seq::empty()
    } else {
        rules_of(trees, (n - 1) as nat).push(rule_of(trees[n - 1]))
    }
}

/// The models of a list of rule trees, in order.
pub open spec fn rules(trees: Vec<RepTree>) -> Seq<RuleView> {
    rules_of(trees, trees.len() as nat)
}

/// The models of a list of rule trees are as many as the trees, each the
/// model of the tree at its place.
pub proof fn lemma_rules(trees: Vec<RepTree>)
    ensures
        rules(trees).len() == trees.len(),
        forall|i: int| 0 <= i < trees.len() ==> (#[trigger] rules(trees)[i]) == trees[i]@,
{
    lemma_rules_of(trees, trees.len() as nat);
}

proof fn lemma_rules_of(trees: Vec<RepTree>, n: nat)
    requires
        n <= trees.len(),
    ensures
        rules_of(trees, n).len() == n,
        forall|i: int| 0 <= i < n ==> (#[trigger] rules_of(trees, n)[i]) == rule_of(trees[i]),
    decreases n,
{
    if n > 0 {
        lemma_rules_of(trees, (n - 1) as nat);
    }
}

/// How running a rule tree ends: the token list it leaves, whether it
/// reports a change, and whether a group in it stopped at the limit of its
/// restarts instead of at a fixed point.
pub struct Outcome {
    pub tokens: Seq<Node>,
    pub changed: bool,
    pub exhausted: bool,
}

/// How often one run of a group starts over before it stops unfinished.
pub open spec fn restart_limit() -> nat {
    usize::MAX as nat
}

/// Running a rule tree in the ordinary way. A leaf rewrites its first match.
/// A group runs to a fixed point. A tree marked `Once` runs in a single
/// pass.
pub open spec fn run(rule: RuleView, tokens: Seq<Node>) -> Outcome
    decreases rule, 0nat, 0nat,
{
    match rule {
        RuleView::Leaf(p, action) => match first_rewritten(p, action, tokens, 0) {
            Some(after) => Outcome { tokens: after, changed: true, exhausted: false },
            None => Outcome { tokens, changed: false, exhausted: false },
        },
        RuleView::Branch(children) => group_run(children, tokens, 0, restart_limit()),
        RuleView::Once(inner) => run_once(*inner, tokens),
    }
}

/// Running a rule tree in a single pass. A leaf rewrites every match in one
/// sweep. A group runs each child once in this way, in order, and reports a
/// change where one of them does. A tree marked `Once` again runs in the
/// ordinary way.
pub open spec fn run_once(rule: RuleView, tokens: Seq<Node>) -> Outcome
    decreases rule, 0nat, 0nat,
{
    match rule {
        RuleView::Leaf(p, action) => Outcome {
            tokens: swept(p, action, tokens, 0),
            changed: sweep_fires(p, tokens, 0),
            exhausted: false,
        },
        RuleView::Branch(children) => each_once(children, tokens, 0),
        RuleView::Once(inner) => run(*inner, tokens),
    }
}

/// Running the children from the `i`th on once each, in order; the whole
/// reports a change where one of them does.
pub open spec fn each_once(children: Seq<RuleView>, tokens: Seq<Node>, i: nat) -> Outcome
    decreases children, children.len() - i, 0nat,
{
    if i >= children.len() {
        Outcome { tokens, changed: false, exhausted: false }
    } else {
        let step = run_once(children[i as int], tokens);
        let rest = each_once(children, step.tokens, i + 1);
        Outcome {
            tokens: rest.tokens,
            changed: step.changed || rest.changed,
            exhausted: step.exhausted || rest.exhausted,
        }
    }
}

/// No rule of the list reports a change on the tokens.
pub open spec fn none_fires(children: Seq<RuleView>, tokens: Seq<Node>) -> bool {
    forall|k: int| 0 <= k < children.len() ==> !(#[trigger] run(children[k], tokens)).changed
}

/// How a run of a rule tree ended.
pub struct RunReport {
    /// Whether the run reports a change.
    pub changed: bool,
    /// Whether every group in the run ended at rest, none at the limit of its
    /// restarts.
    pub finished: bool,
}

/// A computed report is the one of the outcome.
pub open spec fn reports(r: RunReport, outcome: Outcome) -> bool {
    r.changed == outcome.changed && r.finished == !outcome.exhausted
}

/// Running a group from its `i`th child on, with `restarts` starts from the
/// first child left. A child that reports a change sends the group back to
/// its first child; the group ends when the children from some point on all
/// report none, or, unfinished, when a change comes with no restart left.
pub open spec fn group_run(children: Seq<RuleView>, tokens: Seq<Node>, i: nat, restarts: nat) -> Outcome
    decreases children, restarts, children.len() - i,
{
    if i >= children.len() {
        Outcome { tokens, changed: false, exhausted: false }
    } else {
        let step = run(children[i as int], tokens);
        if step.changed {
            if restarts == 0 {
                Outcome { tokens: step.tokens, changed: true, exhausted: true }
            } else {
                let rest = group_run(children, step.tokens, 0, (restarts - 1) as nat);
                Outcome {
                    tokens: rest.tokens,
                    changed: true,
                    exhausted: step.exhausted || rest.exhausted,
                }
            }
        } else {
            let rest = group_run(children, step.tokens, i + 1, restarts);
            Outcome {
                tokens: rest.tokens,
                changed: rest.changed,
                exhausted: step.exhausted || rest.exhausted,
            }
        }
    }
}

/// Every action on tagged tokens can be applied.
pub proof fn lemma_action_ready(action: AnyTransform<Vec<String>>)
    ensures
        action.ready(),
{
    match action {
        AnyTransform::Shallow(a) => lemma_tags_clone(a.data),
        AnyTransform::Deep(a) => lemma_tags_clone(a.data),
        AnyTransform::Remove(a) => {},
    }
}

/// A compiled program: rule trees, run one after another.
pub struct SeqProg {
    pub reps: Vec<RepTree>,
}

/// The list after the rule trees from the `i`th on have each been run once,
/// in order.
pub open spec fn program_run(trees: Seq<RuleView>, tokens: Seq<Node>, i: nat) -> Seq<Node>
    decreases trees.len() - i,
{
    if i >= trees.len() {
        tokens
    } else {
        program_run(trees, run(trees[i as int], tokens).tokens, i + 1)
    }
}

impl SeqProg {
    /// Runs each rule tree of the program once, in the order of declaration.
    pub fn execute<'a>(&self, tokens: &mut Vec<Token<'a, Vec<String>>>)
        requires
            forest_wf(old(tokens).deep_view()),
        ensures
            forest_wf(final(tokens).deep_view()),
            final(tokens).deep_view() == program_run(rules(self.reps), old(tokens).deep_view(), 0),
    {
        let ghost trees = rules(self.reps);
        proof {
            lemma_rules(self.reps);
        }
        let mut i: usize = 0;
        while i < self.reps.len()
            invariant
                i <= self.reps.len(),
                forest_wf(tokens.deep_view()),
                trees == rules(self.reps),
                trees.len() == self.reps.len(),
                forall|k: int| 0 <= k < self.reps.len() ==> (#[trigger] trees[k]) == self.reps[k]@,
                program_run(trees, old(tokens).deep_view(), 0) == program_run(
                    trees,
                    tokens.deep_view(),
                    i as nat,
                ),
            decreases self.reps.len() - i,
        {
            let _ = self.reps[i].execute(self, tokens);
            i += 1;
        }
    }
}

impl RepTree {
    /// Runs the rule tree on the token list and says whether it reports a
    /// change. A leaf rewrites its first match; a group runs its children to
    /// a fixed point, earlier children first; a tree marked `Once` runs in a
    /// single pass. The program is handed on to the children unread.
    ///
    /// A group reports a change exactly where one of its children reports
    /// one on the list as it was. A group that has not stopped at the limit
    /// of its restarts leaves a list on which none of its children reports a
    /// change.
    pub fn execute<'a>(&self, prog: &SeqProg, tokens: &mut Vec<Token<'a, Vec<String>>>) -> (changed:
        bool)
        requires
            forest_wf(old(tokens).deep_view()),
        ensures
            forest_wf(final(tokens).deep_view()),
            final(tokens).deep_view() == run(self@, old(tokens).deep_view()).tokens,
            changed == run(self@, old(tokens).deep_view()).changed,
            self@ is Branch ==> changed == !none_fires(self@->Branch_0, old(tokens).deep_view()),
            self@ is Branch && !run(self@, old(tokens).deep_view()).exhausted ==> none_fires(
                self@->Branch_0,
                final(tokens).deep_view(),
            ),
    {
        proof {
            if self@ is Branch {
                law_group_reports_change(self@->Branch_0, tokens.deep_view());
            }
            if self@ is Branch && !run(self@, tokens.deep_view()).exhausted {
                lemma_fixed_point_from(
                    self@->Branch_0,
                    tokens.deep_view(),
                    0,
                    restart_limit(),
                );
            }
        }
        self.execute_report(prog, tokens).changed
    }

    /// Runs the rule tree as `execute` does, and says besides whether the
    /// run finished: whether every group in it ended at rest and none at
    /// the limit of its restarts.
    pub fn execute_report<'a>(
        &self,
        prog: &SeqProg,
        tokens: &mut Vec<Token<'a, Vec<String>>>,
    ) -> (r: RunReport)
        requires
            forest_wf(old(tokens).deep_view()),
        ensures
            forest_wf(final(tokens).deep_view()),
            final(tokens).deep_view() == run(self@, old(tokens).deep_view()).tokens,
            reports(r, run(self@, old(tokens).deep_view())),
        decreases self, 0nat, 0nat,
    {
        match self {
            RepTree::Branch(children) => group_report(children, prog, tokens),
            RepTree::Leaf(seq, trans) => {
                proof {
                    lemma_action_ready(*trans);
                }
                RunReport { changed: replace_first_match(seq, trans, tokens), finished: true }
            },
            RepTree::Once(rep) => once_report(&**rep, prog, tokens),
        }
    }
}

/// Runs a rule tree in a single pass: a leaf rewrites every match in one
/// sweep, a group runs each child once in this way and reports a change
/// where one of them does, and a tree marked `Once` again runs in the
/// ordinary way.
pub fn execute_once<'a>(
    rep: &RepTree,
    prog: &SeqProg,
    tokens: &mut Vec<Token<'a, Vec<String>>>,
) -> (changed: bool)
    requires
        forest_wf(old(tokens).deep_view()),
    ensures
        forest_wf(final(tokens).deep_view()),
        final(tokens).deep_view() == run_once(rep@, old(tokens).deep_view()).tokens,
        changed == run_once(rep@, old(tokens).deep_view()).changed,
{
    once_report(rep, prog, tokens).changed
}

/// Runs a rule tree in a single pass and reports how the run ended.
fn once_report<'a>(
    rep: &RepTree,
    prog: &SeqProg,
    tokens: &mut Vec<Token<'a, Vec<String>>>,
) -> (r: RunReport)
    requires
        forest_wf(old(tokens).deep_view()),
    ensures
        forest_wf(final(tokens).deep_view()),
        final(tokens).deep_view() == run_once(rep@, old(tokens).deep_view()).tokens,
        reports(r, run_once(rep@, old(tokens).deep_view())),
    decreases rep, 0nat, 0nat,
{
    match rep {
        RepTree::Leaf(seq, trans) => {
            proof {
                lemma_action_ready(*trans);
            }
            RunReport { changed: replace_all_matches(seq, trans, tokens), finished: true }
        },
        RepTree::Branch(children) => {
            let ghost trees = rules(*children);
            let ghost before = tokens.deep_view();
            proof {
                lemma_rules(*children);
            }
            let mut changed = false;
            let mut finished = true;
            let mut i: usize = 0;
            while i < children.len()
                invariant
                    i <= children.len(),
                    forest_wf(tokens.deep_view()),
                    trees == rules(*children),
                    trees.len() == children.len(),
                    before == old(tokens).deep_view(),
                    forall|k: int| 0 <= k < children.len() ==> (#[trigger] trees[k]) == children[k]@,
                    forall|k: int|
                        0 <= k < children.len() ==> decreases_to!(rep => #[trigger] children[k]),
                    each_once(trees, before, 0).tokens == each_once(
                        trees,
                        tokens.deep_view(),
                        i as nat,
                    ).tokens,
                    each_once(trees, before, 0).changed == (changed || each_once(
                        trees,
                        tokens.deep_view(),
                        i as nat,
                    ).changed),
                    each_once(trees, before, 0).exhausted == (!finished || each_once(
                        trees,
                        tokens.deep_view(),
                        i as nat,
                    ).exhausted),
                decreases children.len() - i,
            {
                let step = once_report(&children[i], prog, tokens);
                changed = changed || step.changed;
                finished = finished && step.finished;
                i += 1;
            }
            RunReport { changed, finished }
        },
        RepTree::Once(inner) => inner.execute_report(prog, tokens),
    }
}

/// Runs a group of rule trees to a fixed point and reports how the run
/// ended: the trees are tried in order, and whenever one reports a change
/// the group starts over from the first. It ends when the trees from the
/// first to the last all report no change. A group that has started over
/// `usize::MAX` times stops at the next change, unfinished.
fn group_report<'a>(
    funcs: &Vec<RepTree>,
    prog: &SeqProg,
    carry_over: &mut Vec<Token<'a, Vec<String>>>,
) -> (r: RunReport)
    requires
        forest_wf(old(carry_over).deep_view()),
    ensures
        forest_wf(final(carry_over).deep_view()),
        final(carry_over).deep_view() == group_run(
            rules(*funcs),
            old(carry_over).deep_view(),
            0,
            restart_limit(),
        ).tokens,
        reports(r, group_run(rules(*funcs), old(carry_over).deep_view(), 0, restart_limit())),
    decreases funcs, 0nat, 0nat,
{
    let ghost trees = rules(*funcs);
    let ghost before = carry_over.deep_view();
    proof {
        lemma_rules(*funcs);
    }
    let mut changed_at_least_once = false;
    let mut finished = true;
    let mut restarts: usize = usize::MAX;
    let mut i: usize = 0;
    while i < funcs.len()
        invariant
            i <= funcs.len(),
            forest_wf(carry_over.deep_view()),
            trees == rules(*funcs),
            trees.len() == funcs.len(),
            before == old(carry_over).deep_view(),
            forall|k: int| 0 <= k < funcs.len() ==> (#[trigger] trees[k]) == funcs[k]@,
            group_run(trees, before, 0, restart_limit()).tokens == group_run(
                trees,
                carry_over.deep_view(),
                i as nat,
                restarts as nat,
            ).tokens,
            group_run(trees, before, 0, restart_limit()).changed == (changed_at_least_once
                || group_run(trees, carry_over.deep_view(), i as nat, restarts as nat).changed),
            group_run(trees, before, 0, restart_limit()).exhausted == (!finished || group_run(
                trees,
                carry_over.deep_view(),
                i as nat,
                restarts as nat,
            ).exhausted),
        decreases restarts, funcs.len() - i,
    {
        let step = funcs[i].execute_report(prog, carry_over);
        if step.changed {
            if restarts == 0 {
                return RunReport { changed: true, finished: false };
            }
            restarts -= 1;
            i = 0;
            changed_at_least_once = true;
        } else {
            i += 1;
        }
        finished = finished && step.finished;
    }
    RunReport { changed: changed_at_least_once, finished }
}

/// The tags that a character of the target text starts with: its own text,
/// the letter `u` followed by its code point in decimal, and `ws` where it
/// is white space or a control code.
pub open spec fn char_tags(c: char) -> Tags {
    let own = seq![seq![c], seq!['u'] + decimal(c as u32 as nat)];
    if white_space(c) || control_code(c) {
        own.push(seq!['w', 's'])
    } else {
        own
    }
}

/// The tags of a character of the target text.
pub fn char_to_token(c: char) -> (r: Vec<String>)
    ensures
        r.deep_view() == char_tags(c),
{
    let mut to_ret: Vec<String> = Vec::new();
    to_ret.push(char_text(c));
    let mut code = String::from_str("u");
    proof {
        reveal_strlit("u");
        assert("u"@ =~= seq!['u']);
    }
    push_decimal(&mut code, c as u32);
    to_ret.push(code);
    let white = is_white_space(c);
    let control = is_control_code(c);
    if white || control {
        proof {
            reveal_strlit("ws");
            assert("ws"@ =~= seq!['w', 's']);
        }
        to_ret.push(String::from_str("ws"));
    }
    assert(to_ret.deep_view() =~= char_tags(c));
    to_ret
}

/// A pattern as the rule language writes it, before it is made into a
/// matcher.
pub enum DefinedSeq {
    Raw(String),
    Range(u32, u32),
    Choose(Vec<DefinedSeq>),
    Optional(Box<DefinedSeq>),
    Repeat(Box<DefinedSeq>),
    Multiple(Vec<DefinedSeq>),
    HasTag(String),
}

impl View for DefinedSeq {
    type V = Pattern<ProbeView>;

    open spec fn view(&self) -> Pattern<ProbeView> {
        defined_pattern(*self)
    }
}

/// The pattern that an expression stands for.
pub open spec fn defined_pattern(d: DefinedSeq) -> Pattern<ProbeView>
    decreases d, 0nat,
{
    match d {
        DefinedSeq::Raw(text) => Pattern::Raw(text@),
        DefinedSeq::Range(lo, hi) => Pattern::First(ProbeView::Range(lo as nat, hi as nat)),
        DefinedSeq::Choose(options) => Pattern::Choose(
            defined_patterns_of(options, options.len() as nat),
        ),
        DefinedSeq::Optional(inner) => Pattern::Optional(Box::new(defined_pattern(*inner))),
        DefinedSeq::Repeat(inner) => Pattern::Repeated(Box::new(defined_pattern(*inner))),
        DefinedSeq::Multiple(parts) => Pattern::Multiple(
            defined_patterns_of(parts, parts.len() as nat),
        ),
        DefinedSeq::HasTag(tag) => Pattern::First(ProbeView::HasTag(tag@)),
    }
}

/// The patterns of the first `n` expressions of a list, in order.
pub open spec fn defined_patterns_of(list: Vec<DefinedSeq>, n: nat) -> Seq<Pattern<ProbeView>>
    decreases list, n,
{
    if n == 0 || n > list.len() {
        Seq::empty()
    } else {
        defined_patterns_of(list, (n - 1) as nat).push(defined_pattern(list[n - 1]))
    }
}

/// The patterns of a list of expressions, in order.
pub open spec fn defined_patterns(list: Vec<DefinedSeq>) -> Seq<Pattern<ProbeView>> {
    defined_patterns_of(list, list.len() as nat)
}

/// The patterns of a list of expressions are as many as the expressions,
/// each the pattern of the expression at its place.
pub proof fn lemma_defined_patterns(list: Vec<DefinedSeq>)
    ensures
        defined_patterns(list).len() == list.len(),
        forall|i: int| 0 <= i < list.len() ==> (#[trigger] defined_patterns(list)[i]) == list[i]@,
{
    lemma_defined_patterns_of(list, list.len() as nat);
}

proof fn lemma_defined_patterns_of(list: Vec<DefinedSeq>, n: nat)
    requires
        n <= list.len(),
    ensures
        defined_patterns_of(list, n).len() == n,
        forall|i: int|
            0 <= i < n ==> (#[trigger] defined_patterns_of(list, n)[i]) == defined_pattern(list[i]),
    decreases n,
{
    if n > 0 {
        lemma_defined_patterns_of(list, (n - 1) as nat);
    }
}

/// A list of expressions grown by one has the patterns of the list before
/// and then the pattern of the new expression.
pub proof fn lemma_defined_push(before: Vec<DefinedSeq>, after: Vec<DefinedSeq>, last: DefinedSeq)
    requires
        after@ == before@.push(last),
    ensures
        defined_patterns(after) == defined_patterns(before).push(last@),
{
    lemma_defined_patterns(before);
    lemma_defined_patterns(after);
    assert(defined_patterns(after) =~= defined_patterns(before).push(last@));
}

impl DefinedSeq {
    /// The matcher of the expression.
    pub fn resolve(&self, prog: &SeqProg) -> (r: AnySeq<Probe>)
        ensures
            pattern_of::<Vec<String>, Probe>(r) == self@,
        decreases self, 1nat,
    {
        match self {
            DefinedSeq::Raw(s) => AnySeq::Raw(RawSeq::new(s.as_str())),
            DefinedSeq::Range(s, e) => AnySeq::First(raw_range(*s, *e)),
            DefinedSeq::Choose(options) => AnySeq::Choose(
                ChooseSeq::new(resolve_each(options, prog)),
            ),
            DefinedSeq::Optional(d) => AnySeq::Optional(OptionalSeq::new(Box::new(d.resolve(prog)))),
            DefinedSeq::Repeat(d) => AnySeq::Repeated(RepeatedSeq::new(Box::new(d.resolve(prog)))),
            DefinedSeq::Multiple(options) => AnySeq::Multiple(
                MultipleSeq::new(resolve_each(options, prog)),
            ),
            DefinedSeq::HasTag(s) => AnySeq::First(has_tag(s.as_str())),
        }
    }
}

/// The matchers of a list of expressions, in order.
pub fn resolve_each(list: &Vec<DefinedSeq>, prog: &SeqProg) -> (r: Vec<AnySeq<Probe>>)
    ensures
        patterns::<Vec<String>, Probe>(r) == defined_patterns(*list),
    decreases list, 0nat,
{
    let mut out: Vec<AnySeq<Probe>> = Vec::new();
    proof {
        lemma_patterns_empty::<Vec<String>, Probe>(out);
        lemma_defined_patterns(*list);
    }
    let mut i: usize = 0;
    while i < list.len()
        invariant
            i <= list.len(),
            defined_patterns(*list).len() == list.len(),
            forall|k: int| 0 <= k < list.len() ==> (#[trigger] defined_patterns(*list)[k]) == list[k]@,
            patterns::<Vec<String>, Probe>(out) == defined_patterns(*list).subrange(0, i as int),
        decreases list.len() - i,
    {
        let ghost before = out;
        let m = list[i].resolve(prog);
        out.push(m);
        proof {
            lemma_patterns_push::<Vec<String>, Probe>(before, out, m);
            assert(defined_patterns(*list).subrange(0, i + 1) =~= defined_patterns(*list).subrange(
                0,
                i as int,
            ).push(list[i as int]@));
        }
        i += 1;
    }
    assert(defined_patterns(*list).subrange(0, list.len() as int) =~= defined_patterns(*list));
    out
}

/// A literal for each character of a text, in the order of the text.
pub open spec fn letters(text: Seq<char>) -> Seq<Pattern<ProbeView>> {
    Seq::new(text.len(), |i: int| Pattern::Raw(seq![text[i]]))
}

/// The pattern that a tagged expression of the rule language stands for, or
/// `None` where the expression is not built as its tag demands. The first
/// of these tags that the token carries decides: `mult` and `choose` (a
/// branch; the patterns of its children at even places, in order), `parens`
/// (the second child), `opt` and `repeat` (the first child), `one_or_more`
/// (the first child, then its repetition), `raw` (the content without its
/// first and last character), `quote` (a literal for each character of the
/// content but the first two and the last two), `range` (the code points of
/// the first and the fourth character of the content), `word` (the tag that
/// the content names).
pub open spec fn pattern_expr(token: Node) -> Option<Pattern<ProbeView>>
    decreases token, 1nat, 0nat,
{
    let tags = token.labels;
    let content = token.content();
    if tags.contains("mult"@) {
        match token.kind {
            KindView::Branch { children } => match exprs_from(children, 0, Seq::empty()) {
                Some(parts) => Some(Pattern::Multiple(parts)),
                None => None,
            },
            KindView::Leaf { start, end } => None,
        }
    } else if tags.contains("choose"@) {
        match token.kind {
            KindView::Branch { children } => match exprs_from(children, 0, Seq::empty()) {
                Some(parts) => Some(Pattern::Choose(parts)),
                None => None,
            },
            KindView::Leaf { start, end } => None,
        }
    } else if tags.contains("parens"@) {
        child_expr(token, 1)
    } else if tags.contains("opt"@) {
        match child_expr(token, 0) {
            Some(inner) => Some(Pattern::Optional(Box::new(inner))),
            None => None,
        }
    } else if tags.contains("repeat"@) {
        match child_expr(token, 0) {
            Some(inner) => Some(Pattern::Repeated(Box::new(inner))),
            None => None,
        }
    } else if tags.contains("one_or_more"@) {
        match child_expr(token, 0) {
            Some(inner) => Some(Pattern::Multiple(seq![inner, Pattern::Repeated(Box::new(inner))])),
            None => None,
        }
    } else if tags.contains("raw"@) {
        if content.len() >= 2 {
            Some(Pattern::Raw(content.subrange(1, content.len() - 1)))
        } else {
            None
        }
    } else if tags.contains("quote"@) {
        if content.len() >= 4 {
            Some(Pattern::Multiple(letters(content.subrange(2, content.len() - 2))))
        } else {
            None
        }
    } else if tags.contains("range"@) {
        if content.len() >= 4 {
            Some(Pattern::First(ProbeView::Range(content[0] as nat, content[3] as nat)))
        } else {
            None
        }
    } else if tags.contains("word"@) {
        Some(Pattern::First(ProbeView::HasTag(content)))
    } else {
        None
    }
}

/// The pattern of the `index`th child of a branch; `None` for a leaf, for a
/// branch without such a child, and where the child has no pattern.
pub open spec fn child_expr(token: Node, index: nat) -> Option<Pattern<ProbeView>>
    decreases token, 0nat, 0nat,
{
    match token.kind {
        KindView::Branch { children } => if children.len() > index {
            pattern_expr(children[index as int])
        } else {
            None
        },
        KindView::Leaf { start, end } => None,
    }
}

/// The patterns of every other child from the `i`th on, added to `done`;
/// `None` where one of them has no pattern.
pub open spec fn exprs_from(children: Seq<Node>, i: nat, done: Seq<Pattern<ProbeView>>) -> Option<
    Seq<Pattern<ProbeView>>,
>
    decreases children, children.len() + 1 - i, 0nat,
{
    if i >= children.len() {
        Some(done)
    } else {
        match pattern_expr(children[i as int]) {
            Some(p) => exprs_from(children, i + 2, done.push(p)),
            None => None,
        }
    }
}

/// A computed expression is the one that the specification gives.
pub open spec fn expr_agrees(r: Option<DefinedSeq>, expected: Option<Pattern<ProbeView>>) -> bool {
    match r {
        Some(d) => expected == Some(d@),
        None => expected is None,
    }
}

/// Evaluates a tagged expression of the rule language into the pattern that
/// it stands for; `None` where the expression is not built as its tag
/// demands.
pub fn eval_sequence(token: &Token<'_, Vec<String>>) -> (r: Option<DefinedSeq>)
    requires
        token.deep_view().wf(),
    ensures
        expr_agrees(r, pattern_expr(token.deep_view())),
    decreases token, 1nat, 0nat,
{
    let tags = &token.data;
    let ghost node = token.deep_view();
    assert(node.labels == tags.deep_view());
    if tags_contain(tags, "mult") {
        match eval_children(token) {
            Some(parts) => Some(DefinedSeq::Multiple(parts)),
            None => None,
        }
    } else if tags_contain(tags, "choose") {
        match eval_children(token) {
            Some(parts) => Some(DefinedSeq::Choose(parts)),
            None => None,
        }
    } else if tags_contain(tags, "parens") {
        eval_child(token, 1)
    } else if tags_contain(tags, "opt") {
        match eval_child(token, 0) {
            Some(inner) => Some(DefinedSeq::Optional(Box::new(inner))),
            None => None,
        }
    } else if tags_contain(tags, "repeat") {
        match eval_child(token, 0) {
            Some(inner) => Some(DefinedSeq::Repeat(Box::new(inner))),
            None => None,
        }
    } else if tags_contain(tags, "one_or_more") {
        match eval_child(token, 0) {
            Some(first) => match eval_child(token, 0) {
                Some(again) => {
                    let mut parts: Vec<DefinedSeq> = Vec::new();
                    parts.push(first);
                    parts.push(DefinedSeq::Repeat(Box::new(again)));
                    proof {
                        lemma_defined_patterns(parts);
                        assert(defined_patterns(parts) =~= seq![
                            first@,
                            Pattern::Repeated(Box::new(first@)),
                        ]);
                    }
                    Some(DefinedSeq::Multiple(parts))
                },
                None => None,
            },
            None => None,
        }
    } else if tags_contain(tags, "raw") {
        let content = token.content();
        let n = content.unicode_len();
        let found = if n >= 2 {
            Some(DefinedSeq::Raw(content.substring_char(1, n - 1).to_owned()))
        } else {
            None
        };
        assert(expr_agrees(found, pattern_expr(node)));
        found
    } else if tags_contain(tags, "quote") {
        let content = token.content();
        let n = content.unicode_len();
        let found = if n >= 4 {
            Some(DefinedSeq::Multiple(spell(content.substring_char(2, n - 2))))
        } else {
            None
        };
        assert(expr_agrees(found, pattern_expr(node)));
        found
    } else if tags_contain(tags, "range") {
        let content = token.content();
        let found = if content.unicode_len() >= 4 {
            Some(DefinedSeq::Range(content.get_char(0) as u32, content.get_char(3) as u32))
        } else {
            None
        };
        assert(expr_agrees(found, pattern_expr(node)));
        found
    } else if tags_contain(tags, "word") {
        let found = Some(DefinedSeq::HasTag(token.content().to_owned()));
        assert(expr_agrees(found, pattern_expr(node)));
        found
    } else {
        None
    }
}

/// A literal for each character of a text, in the order of the text.
pub fn spell(text: &str) -> (r: Vec<DefinedSeq>)
    ensures
        defined_patterns(r) == letters(text@),
{
    let n = text.unicode_len();
    let mut out: Vec<DefinedSeq> = Vec::new();
    let mut i: usize = 0;
    while i < n
        invariant
            n == text@.len(),
            i <= n,
            out.len() == i,
            forall|k: int| 0 <= k < i ==> (#[trigger] out[k])@ == Pattern::<ProbeView>::Raw(
                seq![text@[k]],
            ),
        decreases n - i,
    {
        out.push(DefinedSeq::Raw(char_text(text.get_char(i))));
        i += 1;
    }
    proof {
        lemma_defined_patterns(out);
        assert(defined_patterns(out) =~= letters(text@));
    }
    out
}

/// Evaluates the `index`th child of a branch; `None` for a leaf, for a
/// branch without such a child, and where the child has no pattern.
fn eval_child(token: &Token<'_, Vec<String>>, index: usize) -> (r: Option<DefinedSeq>)
    requires
        token.deep_view().wf(),
    ensures
        expr_agrees(r, child_expr(token.deep_view(), index as nat)),
    decreases token, 0nat, 0nat,
{
    match &token.t_type {
        TokenType::Branch(children) => {
            proof {
                lemma_branch_view(token);
            }
            if children.len() > index {
                assert(children.deep_view()[index as int] == children[index as int].deep_view());
                eval_sequence(&children[index])
            } else {
                None
            }
        },
        TokenType::Leaf(_) => None,
    }
}

/// Evaluates every other child of a branch, from the first on; `None` for a
/// leaf and where one of these children has no pattern.
fn eval_children(token: &Token<'_, Vec<String>>) -> (r: Option<Vec<DefinedSeq>>)
    requires
        token.deep_view().wf(),
    ensures
        match token.deep_view().kind {
            KindView::Branch { children } => match r {
                Some(parts) => exprs_from(children, 0, Seq::empty()) == Some(
                    defined_patterns(parts),
                ),
                None => exprs_from(children, 0, Seq::empty()) is None,
            },
            KindView::Leaf { start, end } => r is None,
        },
    decreases token, 0nat, 0nat,
{
    match &token.t_type {
        TokenType::Branch(children) => {
            proof {
                lemma_branch_view(token);
            }
            let ghost kids = children.deep_view();
            let mut out: Vec<DefinedSeq> = Vec::new();
            proof {
                lemma_defined_patterns(out);
                assert(defined_patterns(out) =~= Seq::empty());
            }
            let mut i: usize = 0;
            while i < children.len()
                invariant
                    i <= children.len(),
                    kids == children.deep_view(),
                    kids.len() == children.len(),
                    token.deep_view().kind == (KindView::Branch { children: kids }),
                    forall|k: int| 0 <= k < kids.len() ==> (#[trigger] kids[k]).wf(),
                    forall|k: int|
                        0 <= k < children.len() ==> decreases_to!(token => #[trigger] children[k]),
                    exprs_from(kids, 0, Seq::empty()) == exprs_from(
                        kids,
                        i as nat,
                        defined_patterns(out),
                    ),
                decreases children.len() - i,
            {
                assert(kids[i as int] == children[i as int].deep_view());
                let ghost done = defined_patterns(out);
                match eval_sequence(&children[i]) {
                    Some(d) => {
                        let ghost before = out;
                        out.push(d);
                        proof {
                            lemma_defined_push(before, out, d);
                            assert(exprs_from(kids, i as nat, done) == exprs_from(
                                kids,
                                (i + 2) as nat,
                                defined_patterns(out),
                            ));
                        }
                    },
                    None => {
                        assert(exprs_from(kids, i as nat, done) is None);
                        return None;
                    },
                }
                i += 1;
                if i < children.len() {
                    i += 1;
                } else {
                    assert(exprs_from(kids, (i + 1) as nat, defined_patterns(out)) == Some(
                        defined_patterns(out),
                    ));
                    assert(exprs_from(kids, i as nat, defined_patterns(out)) == Some(
                        defined_patterns(out),
                    ));
                }
            }
            Some(out)
        },
        TokenType::Leaf(_) => None,
    }
}

/// A list of rule trees grown by one has the models of the list before and
/// then the model of the new tree.
pub proof fn lemma_rules_push(before: Vec<RepTree>, after: Vec<RepTree>, last: RepTree)
    requires
        after@ == before@.push(last),
    ensures
        rules(after) == rules(before).push(last@),
{
    lemma_rules(before);
    lemma_rules(after);
    assert(rules(after) =~= rules(before).push(last@));
}

/// The contents of every other child from the `i`th on, added to `done`: the
/// tags that a rule declares.
pub open spec fn tag_names(children: Seq<Node>, i: nat, done: Tags) -> Tags
    decreases children.len() + 1 - i,
{
    if i >= children.len() {
        done
    } else {
        tag_names(children, i + 2, done.push(children[i as int].content()))
    }
}

/// The rule tree that a tagged declaration of the rule language stands for,
/// or `None` where the declaration is not built as its tag demands. The
/// first of these tags that the token carries decides. `once`: a branch; the
/// tree of its second child, marked to run in a single pass. `rep_leaf`: a
/// branch; the pattern of its first child with the action that a further tag
/// names, which is `rep_remove` for delete or else `rep_deep` for wrap or
/// else `rep_shallow` for merge, the new labels being the contents of the
/// children at the third, fifth and further odd places. `rep_branch`: a
/// branch of at least two children; the group of the trees of all children
/// but the first and the last.
pub open spec fn rule_expr(token: Node) -> Option<RuleView>
    decreases token, 1nat, 0nat,
{
    let tags = token.labels;
    match token.kind {
        KindView::Branch { children } => {
            if tags.contains("once"@) {
                if children.len() > 1 {
                    match rule_expr(children[1]) {
                        Some(inner) => Some(RuleView::Once(Box::new(inner))),
                        None => None,
                    }
                } else {
                    None
                }
            } else if tags.contains("rep_leaf"@) {
                if children.len() > 0 {
                    match pattern_expr(children[0]) {
                        Some(p) => if tags.contains("rep_remove"@) {
                            Some(RuleView::Leaf(p, ActionView::Delete))
                        } else if tags.contains("rep_deep"@) {
                            Some(
                                RuleView::Leaf(
                                    p,
                                    ActionView::Wrap(tag_names(children, 2, Seq::empty())),
                                ),
                            )
                        } else if tags.contains("rep_shallow"@) {
                            Some(
                                RuleView::Leaf(
                                    p,
                                    ActionView::Merge(tag_names(children, 2, Seq::empty())),
                                ),
                            )
                        } else {
                            None
                        },
                        None => None,
                    }
                } else {
                    None
                }
            } else if tags.contains("rep_branch"@) {
                if children.len() >= 2 {
                    match members_from(children, 1, Seq::empty()) {
                        Some(members) => Some(RuleView::Branch(members)),
                        None => None,
                    }
                } else {
                    None
                }
            } else {
                None
            }
        },
        KindView::Leaf { start, end } => None,
    }
}

/// The rule trees of the children from the `i`th on but the last, added to
/// `done`; `None` where one of them stands for no tree.
pub open spec fn members_from(children: Seq<Node>, i: nat, done: Seq<RuleView>) -> Option<
    Seq<RuleView>,
>
    decreases children, children.len() - i, 0nat,
{
    if i + 1 >= children.len() {
        Some(done)
    } else {
        match rule_expr(children[i as int]) {
            Some(member) => members_from(children, i + 1, done.push(member)),
            None => None,
        }
    }
}

/// A computed rule tree is the one that the specification gives.
pub open spec fn rule_agrees(r: Option<RepTree>, expected: Option<RuleView>) -> bool {
    match r {
        Some(tree) => expected == Some(tree@),
        None => expected is None,
    }
}

/// The contents of the children at the third, fifth and further odd places.
fn collect_tags(children: &Vec<Token<'_, Vec<String>>>) -> (r: Vec<String>)
    requires
        forall|k: int| 0 <= k < children.len() ==> (#[trigger] children.deep_view()[k]).wf(),
    ensures
        r.deep_view() == tag_names(children.deep_view(), 2, Seq::empty()),
{
    let ghost kids = children.deep_view();
    let mut out: Vec<String> = Vec::new();
    assert(out.deep_view() =~= Seq::<Seq<char>>::empty());
    if children.len() <= 2 {
        return out;
    }
    let mut i: usize = 2;
    while i < children.len()
        invariant
            2 <= i <= children.len(),
            kids == children.deep_view(),
            forall|k: int| 0 <= k < children.len() ==> (#[trigger] kids[k]).wf(),
            tag_names(kids, 2, Seq::empty()) == tag_names(kids, i as nat, out.deep_view()),
        decreases children.len() - i,
    {
        assert(kids[i as int] == children[i as int].deep_view());
        let ghost done = out.deep_view();
        out.push(children[i].content().to_owned());
        proof {
            assert(out.deep_view() =~= done.push(kids[i as int].content()));
            assert(tag_names(kids, i as nat, done) == tag_names(
                kids,
                (i + 2) as nat,
                out.deep_view(),
            ));
        }
        i += 1;
        if i < children.len() {
            i += 1;
        } else {
            assert(tag_names(kids, (i + 1) as nat, out.deep_view()) == out.deep_view());
            assert(tag_names(kids, i as nat, out.deep_view()) == out.deep_view());
        }
    }
    out
}

/// Evaluates a tagged rule declaration into a rule tree; `None` where the
/// declaration is not built as its tag demands.
pub fn eval_rep(token: &Token<'_, Vec<String>>, prog: &SeqProg) -> (r: Option<RepTree>)
    requires
        token.deep_view().wf(),
    ensures
        rule_agrees(r, rule_expr(token.deep_view())),
    decreases token, 1nat, 0nat,
{
    let tags = &token.data;
    let ghost node = token.deep_view();
    assert(node.labels == tags.deep_view());
    match &token.t_type {
        TokenType::Branch(children) => {
            proof {
                lemma_branch_view(token);
            }
            let ghost kids = children.deep_view();
            if tags_contain(tags, "once") {
                if children.len() > 1 {
                    assert(kids[1] == children[1].deep_view());
                    let found = match eval_rep(&children[1], prog) {
                        Some(inner) => Some(RepTree::Once(Box::new(inner))),
                        None => None,
                    };
                    assert(rule_agrees(found, rule_expr(node)));
                    found
                } else {
                    None
                }
            } else if tags_contain(tags, "rep_leaf") {
                if children.len() > 0 {
                    assert(kids[0] == children[0].deep_view());
                    let found = match eval_sequence(&children[0]) {
                        Some(d) => {
                            let seq = d.resolve(prog);
                            if tags_contain(tags, "rep_remove") {
                                Some(RepTree::Leaf(seq, AnyTransform::Remove(RemoveTransform {  })))
                            } else if tags_contain(tags, "rep_deep") {
                                let data = collect_tags(children);
                                Some(RepTree::Leaf(seq, AnyTransform::Deep(DeepTransform { data })))
                            } else if tags_contain(tags, "rep_shallow") {
                                let data = collect_tags(children);
                                Some(
                                    RepTree::Leaf(
                                        seq,
                                        AnyTransform::Shallow(ShallowTransform { data }),
                                    ),
                                )
                            } else {
                                None
                            }
                        },
                        None => None,
                    };
                    assert(rule_agrees(found, rule_expr(node)));
                    found
                } else {
                    None
                }
            } else if tags_contain(tags, "rep_branch") {
                if children.len() >= 2 {
                    let found = match eval_members(token, prog) {
                        Some(members) => Some(RepTree::Branch(members)),
                        None => None,
                    };
                    assert(rule_agrees(found, rule_expr(node)));
                    found
                } else {
                    None
                }
            } else {
                None
            }
        },
        TokenType::Leaf(_) => None,
    }
}

/// Evaluates all children of a branch but the first and the last into rule
/// trees; `None` where one of them stands for no tree.
fn eval_members(token: &Token<'_, Vec<String>>, prog: &SeqProg) -> (r: Option<Vec<RepTree>>)
    requires
        token.deep_view().wf(),
        token.t_type is Branch,
        token.t_type->Branch_0.len() >= 2,
    ensures
        match r {
            Some(members) => members_from(
                token.deep_view().kind->children,
                1,
                Seq::empty(),
            ) == Some(rules(members)),
            None => members_from(token.deep_view().kind->children, 1, Seq::empty()) is None,
        },
    decreases token, 0nat, 0nat,
{
    match &token.t_type {
        TokenType::Branch(children) => {
            proof {
                lemma_branch_view(token);
            }
            let ghost kids = children.deep_view();
            let mut out: Vec<RepTree> = Vec::new();
            proof {
                lemma_rules(out);
                assert(rules(out) =~= Seq::empty());
            }
            let mut i: usize = 1;
            while i + 1 < children.len()
                invariant
                    1 <= i < children.len(),
                    kids == children.deep_view(),
                    kids.len() == children.len(),
                    token.deep_view().kind == (KindView::Branch { children: kids }),
                    forall|k: int| 0 <= k < kids.len() ==> (#[trigger] kids[k]).wf(),
                    forall|k: int|
                        0 <= k < children.len() ==> decreases_to!(token => #[trigger] children[k]),
                    members_from(kids, 1, Seq::empty()) == members_from(kids, i as nat, rules(out)),
                decreases children.len() - i,
            {
                assert(kids[i as int] == children[i as int].deep_view());
                let ghost done = rules(out);
                match eval_rep(&children[i], prog) {
                    Some(member) => {
                        let ghost before = out;
                        out.push(member);
                        proof {
                            lemma_rules_push(before, out, member);
                            assert(members_from(kids, i as nat, done) == members_from(
                                kids,
                                (i + 1) as nat,
                                rules(out),
                            ));
                        }
                    },
                    None => {
                        assert(members_from(kids, i as nat, done) is None);
                        return None;
                    },
                }
                i += 1;
            }
            Some(out)
        },
        TokenType::Leaf(_) => None,
    }
}

/// A text cut into one leaf per character, the leaf at each position tagged
/// with what `tagger` gives for the character there.
pub open spec fn leaves(text: Seq<char>, tagger: spec_fn(char) -> Tags) -> Seq<Node> {
    Seq::new(
        text.len(),
        |i: int|
            TokenView {
                root: text,
                kind: KindView::Leaf { start: i, end: i + 1 },
                labels: tagger(text[i]),
            },
    )
}

/// The source of a grammar cut into leaves without tags.
pub open spec fn bare_leaves(text: Seq<char>) -> Seq<Node> {
    leaves(text, |c: char| Seq::<Seq<char>>::empty())
}

/// A target text cut into leaves, each with the tags of its character.
pub open spec fn char_leaves(text: Seq<char>) -> Seq<Node> {
    leaves(text, |c: char| char_tags(c))
}

/// The source of a grammar, tokenized and tagged by the bootstrap rule set.
pub open spec fn tucked(text: Seq<char>) -> Seq<Node> {
    program_run(bootstrap_rules(), bare_leaves(text), 0)
}

/// The tags that a character of a grammar's source starts with: none.
pub fn no_tags(c: char, index: usize) -> (tags: Vec<String>)
    ensures
        tags.deep_view() == Seq::<Seq<char>>::empty(),
{
    let tags: Vec<String> = Vec::new();
    assert(tags.deep_view() =~= Seq::<Seq<char>>::empty());
    tags
}

/// The tags that a character of a target text starts with, whatever its
/// position.
pub fn tags_at(c: char, index: usize) -> (tags: Vec<String>)
    ensures
        tags.deep_view() == char_tags(c),
{
    char_to_token(c)
}

/// Tokenizes and tags the source of a grammar: the source is cut into one
/// untagged leaf per character, and the bootstrap rule set runs on it.
pub fn tuck_tokens<'a>(text: &'a str) -> (r: Vec<Token<'a, Vec<String>>>)
    ensures
        r.deep_view() == tucked(text@),
        forest_wf(r.deep_view()),
{
    let mut tox = Token::token_vec_from_str(text, no_tags);
    proof {
        let views = tox.deep_view();
        assert forall|i: int| 0 <= i < views.len() implies views[i] == #[trigger] bare_leaves(
            text@,
        )[i] by {
            assert(views[i] == tox[i].deep_view());
        }
        assert(views =~= bare_leaves(text@));
        if views.len() > 0 {
            lemma_member(views, text@, 0);
        }
    }
    let prog = bootstrap();
    prog.execute(&mut tox);
    tox
}

/// The rule trees that the tagged tokens from the `i`th on declare, added to
/// `done`: one for each token that carries the tag `rep`, in order; `None`
/// where one of these tokens stands for no rule tree.
pub open spec fn program_expr(tokens: Seq<Node>, i: nat, done: Seq<RuleView>) -> Option<
    Seq<RuleView>,
>
    decreases tokens.len() - i,
{
    if i >= tokens.len() {
        Some(done)
    } else if tokens[i as int].labels.contains("rep"@) {
        match rule_expr(tokens[i as int]) {
            Some(rule) => program_expr(tokens, i + 1, done.push(rule)),
            None => None,
        }
    } else {
        program_expr(tokens, i + 1, done)
    }
}

/// A computed program is the one that the specification gives.
pub open spec fn program_agrees(r: Option<SeqProg>, expected: Option<Seq<RuleView>>) -> bool {
    match r {
        Some(prog) => expected == Some(rules(prog.reps)),
        None => expected is None,
    }
}

/// Assembles a program from tagged tokens: every token that carries the tag
/// `rep` is evaluated into a rule tree, in order. There is no program where
/// one of them cannot be evaluated.
pub fn create_program<'a>(tokens: Vec<Token<'a, Vec<String>>>) -> (r: Option<SeqProg>)
    requires
        forest_wf(tokens.deep_view()),
    ensures
        program_agrees(r, program_expr(tokens.deep_view(), 0, Seq::empty())),
{
    let ghost nodes = tokens.deep_view();
    let mut prog = SeqProg { reps: Vec::new() };
    proof {
        lemma_rules(prog.reps);
        assert(rules(prog.reps) =~= Seq::empty());
    }
    let mut i: usize = 0;
    while i < tokens.len()
        invariant
            i <= tokens.len(),
            nodes == tokens.deep_view(),
            forest_wf(nodes),
            program_expr(nodes, 0, Seq::empty()) == program_expr(nodes, i as nat, rules(prog.reps)),
        decreases tokens.len() - i,
    {
        let token = &tokens[i];
        proof {
            assert(nodes[i as int] == token.deep_view());
            assert(token.deep_view().labels == token.data.deep_view());
            lemma_member(nodes, nodes[0].root, i as int);
        }
        if tags_contain(&token.data, "rep") {
            match eval_rep(token, &prog) {
                Some(rule) => {
                    let ghost before = prog.reps;
                    prog.reps.push(rule);
                    proof {
                        lemma_rules_push(before, prog.reps, rule);
                    }
                },
                None => {
                    return None;
                },
            }
        }
        i += 1;
    }
    Some(prog)
}

/// Compiles the source of a grammar into a program; `None` where a rule
/// declaration in it cannot be evaluated.
pub fn prog_from_str(text: &str) -> (r: Option<SeqProg>)
    ensures
        program_agrees(r, program_expr(tucked(text@), 0, Seq::empty())),
{
    create_program(tuck_tokens(text))
}

/// Compiles the source of a grammar and runs the program on a target text,
/// cut into one leaf per character with the tags of the character. The
/// result is the token forest that the program leaves, or `None` where the
/// grammar does not compile.
pub fn eval_prog_from_text<'a>(prog: &str, text: &'a str) -> (r: Option<Vec<Token<'a, Vec<String>>>>)
    ensures
        match program_expr(tucked(prog@), 0, Seq::empty()) {
            Some(trees) => r is Some && r.unwrap().deep_view() == program_run(
                trees,
                char_leaves(text@),
                0,
            ) && forest_wf(r.unwrap().deep_view()),
            None => r is None,
        },
{
    match prog_from_str(prog) {
        Some(sp) => {
            let mut tox = Token::token_vec_from_str(text, tags_at);
            proof {
                let views = tox.deep_view();
                assert forall|i: int| 0 <= i < views.len() implies views[i]
                    == #[trigger] char_leaves(text@)[i] by {
                    assert(views[i] == tox[i].deep_view());
                }
                assert(views =~= char_leaves(text@));
                if views.len() > 0 {
                    lemma_member(views, text@, 0);
                }
            }
            sp.execute(&mut tox);
            Some(tox)
        },
        None => None,
    }
}

} // verus!
