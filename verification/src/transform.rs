//! Rewrite actions, each of which takes the run of tokens that a matcher
//! consumed and gives the run that replaces it, and the loop that calls steps
//! to a fixed point.
use crate::token::{lemma_branch_view, lemma_branch_wf, lemma_empty_wf, lemma_member};
use crate::token::{lemma_single_wf, lemma_span_in_root, tokens_wf};
use crate::token::{KindView, Token, TokenType, TokenView};
use vstd::prelude::*;

verus! {

/// A run of tokens is a forest when it is well formed over the root text of
/// its first token; the empty run is one.
pub open spec fn forest_wf<L>(run: Seq<TokenView<L>>) -> bool {
    run.len() > 0 ==> tokens_wf(run, run[0].root)
}

/// A replacement fits the run it replaces: it is empty, or it is a forest
/// over the same root text that lies inside the span of the run.
pub open spec fn fits<L>(out: Seq<TokenView<L>>, run: Seq<TokenView<L>>) -> bool {
    out.len() > 0 ==> {
        &&& run.len() > 0
        &&& tokens_wf(out, run[0].root)
        &&& run[0].start() <= out[0].start()
        &&& out[out.len() - 1].end() <= run[run.len() - 1].end()
    }
}

/// Every copy of the labels has the model of the labels themselves.
pub open spec fn clone_keeps_view<T: DeepView + Clone>(data: T) -> bool {
    forall|copy: T| cloned(data, copy) ==> copy.deep_view() == data.deep_view()
}

/// The model of a rewrite action, over the model `L` of the labels.
pub enum ActionView<L> {
    /// The run collapses into one leaf with these labels.
    Merge(L),
    /// The run becomes the children of one branch with these labels.
    Wrap(L),
    /// The run vanishes.
    Delete,
}

/// The run that an action puts in the place of `run`.
pub open spec fn replaced<L>(action: ActionView<L>, run: Seq<TokenView<L>>) -> Seq<TokenView<L>> {
    match action {
        ActionView::Merge(labels) => merged(labels, run),
        ActionView::Wrap(labels) => wrapped(labels, run),
        ActionView::Delete => Seq::empty(),
    }
}

/// What a merge gives: one leaf from the start of the first token to the end
/// of the last, with the new labels; nothing for an empty run.
pub open spec fn merged<L>(labels: L, run: Seq<TokenView<L>>) -> Seq<TokenView<L>> {
    if run.len() == 0 {
        Seq::empty()
    } else {
        seq![
            TokenView {
                root: run[0].root,
                kind: KindView::Leaf { start: run[0].start(), end: run[run.len() - 1].end() },
                labels,
            },
        ]
    }
}

/// What a wrap gives: one branch over the run, with the new labels; nothing
/// for an empty run.
pub open spec fn wrapped<L>(labels: L, run: Seq<TokenView<L>>) -> Seq<TokenView<L>> {
    if run.len() == 0 {
        Seq::empty()
    } else {
        seq![TokenView { root: run[0].root, kind: KindView::Branch { children: run }, labels }]
    }
}

/// What any action puts in the place of a forest fits the forest.
pub proof fn lemma_replaced_fits<L>(action: ActionView<L>, run: Seq<TokenView<L>>)
    requires
        forest_wf(run),
    ensures
        fits(replaced(action, run), run),
        replaced(action, run).len() <= 1,
        run.len() == 0 ==> replaced(action, run).len() == 0,
{
    let out = replaced(action, run);
    if out.len() > 0 {
        let n = run.len() as int;
        lemma_member(run, run[0].root, 0);
        lemma_member(run, run[0].root, n - 1);
        if n > 1 {
            lemma_apart(run, run[0].root, 0, n - 1);
        }
        if action is Wrap {
            lemma_branch_wf(out[0]);
        }
        lemma_single_wf(out);
    }
}

/// A rewrite action.
pub trait Transform<T: DeepView> {
    /// What the action needs of itself to be applied.
    spec fn ready(&self) -> bool;

    /// The action's model, which alone decides the replacement.
    spec fn action(&self) -> ActionView<T::V>;

    /// Consumes the matched run and gives the run that replaces it.
    fn transform<'a>(&self, tokens: Vec<Token<'a, T>>) -> (r: Vec<Token<'a, T>>)
        requires
            self.ready(),
            forest_wf(tokens.deep_view()),
        ensures
            r.deep_view() == replaced(self.action(), tokens.deep_view()),
    ;
}

/// Merge: the run collapses into one leaf labelled `data`.
pub struct ShallowTransform<T: Clone> {
    pub data: T,
}

/// Wrap: the run becomes the children of one branch labelled `data`.
pub struct DeepTransform<T: Clone> {
    pub data: T,
}

/// Delete: the run vanishes.
pub struct RemoveTransform {}

impl<T: DeepView + Clone> Transform<T> for ShallowTransform<T> {
    open spec fn ready(&self) -> bool {
        clone_keeps_view(self.data)
    }

    open spec fn action(&self) -> ActionView<T::V> {
        ActionView::Merge(self.data.deep_view())
    }

    fn transform<'a>(&self, tokens: Vec<Token<'a, T>>) -> (r: Vec<Token<'a, T>>) {
        let n = tokens.len();
        if n == 0 {
            let out: Vec<Token<'a, T>> = Vec::new();
            assert(out.deep_view() =~= merged(self.data.deep_view(), tokens.deep_view()));
            return out;
        }
        let ghost run = tokens.deep_view();
        proof {
            assert(run[0] == tokens[0].deep_view());
            assert(run[n - 1] == tokens[n - 1].deep_view());
            lemma_member(run, run[0].root, 0);
            lemma_member(run, run[0].root, n - 1);
        }
        let first = tokens[0].content_range();
        let last = tokens[n - 1].content_range();
        let root = tokens[0].root;
        let data = self.data.clone();
        let mut out: Vec<Token<'a, T>> = Vec::new();
        out.push(Token { root, t_type: TokenType::Leaf(first.start..last.end), data });
        proof {
            assert(out.deep_view()[0] == out[0].deep_view());
            assert(out.deep_view() =~= merged(self.data.deep_view(), run));
        }
        out
    }
}

impl<T: DeepView + Clone> Transform<T> for DeepTransform<T> {
    open spec fn ready(&self) -> bool {
        clone_keeps_view(self.data)
    }

    open spec fn action(&self) -> ActionView<T::V> {
        ActionView::Wrap(self.data.deep_view())
    }

    fn transform<'a>(&self, tokens: Vec<Token<'a, T>>) -> (r: Vec<Token<'a, T>>) {
        let n = tokens.len();
        if n == 0 {
            let out: Vec<Token<'a, T>> = Vec::new();
            assert(out.deep_view() =~= wrapped(self.data.deep_view(), tokens.deep_view()));
            return out;
        }
        let ghost run = tokens.deep_view();
        proof {
            assert(run[0] == tokens[0].deep_view());
        }
        let root = tokens[0].root;
        let data = self.data.clone();
        let branch = Token { root, t_type: TokenType::Branch(tokens), data };
        proof {
            lemma_branch_view(&branch);
        }
        let mut out: Vec<Token<'a, T>> = Vec::new();
        out.push(branch);
        proof {
            assert(out.deep_view()[0] == out[0].deep_view());
            assert(out.deep_view() =~= wrapped(self.data.deep_view(), run));
        }
        out
    }
}

impl<T: DeepView> Transform<T> for RemoveTransform {
    open spec fn ready(&self) -> bool {
        true
    }

    open spec fn action(&self) -> ActionView<T::V> {
        ActionView::Delete
    }

    fn transform<'a>(&self, tokens: Vec<Token<'a, T>>) -> (r: Vec<Token<'a, T>>) {
        let out: Vec<Token<'a, T>> = Vec::new();
        assert(out.deep_view() =~= Seq::empty());
        out
    }
}

/// Any of the three actions.
pub enum AnyTransform<T: Clone> {
    Shallow(ShallowTransform<T>),
    Deep(DeepTransform<T>),
    Remove(RemoveTransform),
}

/// The model of an action.
pub open spec fn action_of<T: DeepView + Clone>(a: AnyTransform<T>) -> ActionView<T::V> {
    match a {
        AnyTransform::Shallow(a) => ActionView::Merge(a.data.deep_view()),
        AnyTransform::Deep(a) => ActionView::Wrap(a.data.deep_view()),
        AnyTransform::Remove(a) => ActionView::Delete,
    }
}

impl<T: DeepView + Clone> Transform<T> for AnyTransform<T> {
    open spec fn ready(&self) -> bool {
        match self {
            AnyTransform::Shallow(a) => clone_keeps_view(a.data),
            AnyTransform::Deep(a) => clone_keeps_view(a.data),
            AnyTransform::Remove(a) => true,
        }
    }

    open spec fn action(&self) -> ActionView<T::V> {
        action_of(*self)
    }

    fn transform<'a>(&self, tokens: Vec<Token<'a, T>>) -> (r: Vec<Token<'a, T>>) {
        match self {
            AnyTransform::Shallow(a) => a.transform(tokens),
            AnyTransform::Deep(a) => a.transform(tokens),
            AnyTransform::Remove(a) => a.transform(tokens),
        }
    }
}

/// The list in which the run of `n` tokens at `start` has given way to `out`.
pub open spec fn splice<L>(tokens: Seq<TokenView<L>>, start: int, n: int, out: Seq<TokenView<L>>) -> Seq<
    TokenView<L>,
> {
    tokens.subrange(0, start) + out + tokens.subrange(start + n, tokens.len() as int)
}

/// In a well-formed list an earlier token ends no later than a later one
/// starts.
pub proof fn lemma_apart<L>(tokens: Seq<TokenView<L>>, root: Seq<char>, i: int, j: int)
    requires
        tokens_wf(tokens, root),
        0 <= i < j < tokens.len(),
    ensures
        tokens[i].end() <= tokens[j].start(),
{
    lemma_member(tokens, root, i);
}

/// A part of a well-formed list is well formed.
pub proof fn lemma_part_wf<L>(tokens: Seq<TokenView<L>>, root: Seq<char>, from: int, to: int)
    requires
        tokens_wf(tokens, root),
        0 <= from <= to <= tokens.len(),
    ensures
        tokens_wf(tokens.subrange(from, to), root),
{
    reveal(tokens_wf);
    let part = tokens.subrange(from, to);
    assert forall|i: int| 0 <= i < part.len() implies (#[trigger] part[i]).wf() && part[i].root
        == root by {
        assert(part[i] == tokens[i + from]);
    }
    assert forall|i: int, j: int| 0 <= i < j < part.len() implies (#[trigger] part[i]).end() <= (
    #[trigger] part[j]).start() by {
        assert(part[i] == tokens[i + from]);
        assert(part[j] == tokens[j + from]);
    }
}

/// Two well-formed lists over one root text, the first ending no later than
/// the second starts, join into a well-formed list.
pub proof fn lemma_join_wf<L>(a: Seq<TokenView<L>>, b: Seq<TokenView<L>>, root: Seq<char>)
    requires
        tokens_wf(a, root),
        tokens_wf(b, root),
        a.len() > 0 && b.len() > 0 ==> a[a.len() - 1].end() <= b[0].start(),
    ensures
        tokens_wf(a + b, root),
{
    reveal(tokens_wf);
    let ab = a + b;
    assert forall|k: int| 0 <= k < ab.len() implies (#[trigger] ab[k]).start() <= ab[k].end() by {
        if k < a.len() {
            assert(ab[k] == a[k]);
            lemma_span_in_root(a[k]);
        } else {
            assert(ab[k] == b[k - a.len()]);
            lemma_span_in_root(b[k - a.len()]);
        }
    }
    assert forall|i: int| 0 <= i < ab.len() implies (#[trigger] ab[i]).wf() && ab[i].root
        == root by {
        if i < a.len() {
            assert(ab[i] == a[i]);
        } else {
            assert(ab[i] == b[i - a.len()]);
        }
    }
    assert forall|i: int, j: int| 0 <= i < j < ab.len() implies (#[trigger] ab[i]).end() <= (
    #[trigger] ab[j]).start() by {
        if j < a.len() {
            assert(ab[i] == a[i]);
            assert(ab[j] == a[j]);
        } else if i < a.len() {
            let last = a.len() - 1;
            assert(ab[i] == a[i]);
            assert(ab[j] == b[j - a.len()]);
            assert(ab[last] == a[last]);
            assert(ab[a.len() as int] == b[0]);
            assert(a[i].end() <= a[last].end());
            assert(b[0].start() <= b[j - a.len()].start());
        } else {
            assert(ab[i] == b[i - a.len()]);
            assert(ab[j] == b[j - a.len()]);
        }
    }
}

/// A part of a forest is a forest, over the same root text.
pub proof fn lemma_part_forest<L>(tokens: Seq<TokenView<L>>, from: int, to: int)
    requires
        forest_wf(tokens),
        0 <= from <= to <= tokens.len(),
    ensures
        forest_wf(tokens.subrange(from, to)),
        from < to ==> tokens.subrange(from, to)[0].root == tokens[0].root,
{
    if from < to {
        lemma_part_wf(tokens, tokens[0].root, from, to);
        lemma_member(tokens, tokens[0].root, from);
        assert(tokens.subrange(from, to)[0] == tokens[from]);
    }
}

/// Putting a fitting replacement in the place of a run of a forest gives a
/// forest again.
pub proof fn lemma_splice_forest<L>(
    tokens: Seq<TokenView<L>>,
    start: int,
    n: int,
    out: Seq<TokenView<L>>,
)
    requires
        forest_wf(tokens),
        0 <= start,
        0 <= n,
        start + n <= tokens.len(),
        fits(out, tokens.subrange(start, start + n)),
    ensures
        forest_wf(splice(tokens, start, n, out)),
        tokens.len() > 0 ==> tokens_wf(splice(tokens, start, n, out), tokens[0].root),
{
    let len = tokens.len() as int;
    if len > 0 {
        let root = tokens[0].root;
        let pre = tokens.subrange(0, start);
        let run = tokens.subrange(start, start + n);
        let suf = tokens.subrange(start + n, len);
        lemma_part_wf(tokens, root, 0, start);
        lemma_part_wf(tokens, root, start + n, len);
        if out.len() == 0 {
            lemma_empty_wf(out, root);
        }
        if out.len() > 0 {
            assert(run[0] == tokens[start]);
            assert(run[n - 1] == tokens[start + n - 1]);
            lemma_member(tokens, root, start);
            if start > 0 {
                assert(pre[start - 1] == tokens[start - 1]);
                lemma_apart(tokens, root, start - 1, start);
            }
        }
        lemma_join_wf(pre, out, root);
        let mid = pre + out;
        if mid.len() > 0 && suf.len() > 0 {
            assert(suf[0] == tokens[start + n]);
            if out.len() > 0 {
                assert(mid[mid.len() - 1] == out[out.len() - 1]);
                lemma_apart(tokens, root, start + n - 1, start + n);
            } else {
                assert(mid[mid.len() - 1] == tokens[start - 1]);
                lemma_apart(tokens, root, start - 1, start + n);
            }
        }
        lemma_join_wf(mid, suf, root);
        let after = splice(tokens, start, n, out);
        if after.len() > 0 {
            lemma_member(after, root, 0);
        }
    } else {
        assert(tokens.subrange(start, start + n).len() == 0);
        assert(splice(tokens, start, n, out) =~= Seq::empty());
    }
}

/// One call of a step in a run to a fixed point: which step was called, the
/// state before and after the call, and whether the step reported a change.
pub struct Call<T> {
    pub index: nat,
    pub before: T,
    pub after: T,
    pub changed: bool,
}

/// The step that is called next: the first after a change, else the one
/// behind the step called last.
pub open spec fn next_step<T>(calls: Seq<Call<T>>) -> nat {
    if calls.len() == 0 {
        0
    } else if calls.last().changed {
        0
    } else {
        calls.last().index + 1
    }
}

/// The state that the calls leave.
pub open spec fn state_after<T>(start: T, calls: Seq<Call<T>>) -> T {
    if calls.len() == 0 {
        start
    } else {
        calls.last().after
    }
}

/// How many of the calls reported a change.
pub open spec fn changes_in<T>(calls: Seq<Call<T>>) -> nat
    decreases calls.len(),
{
    if calls.len() == 0 {
        0
    } else if calls.last().changed {
        changes_in(calls.drop_last()) + 1
    } else {
        changes_in(calls.drop_last())
    }
}

/// The calls are made in the order of a run to a fixed point over `steps`
/// steps, from the state `start` on: each call is of the step that is next
/// and starts from the state that the calls before it left.
pub open spec fn in_order<T>(steps: nat, start: T, calls: Seq<Call<T>>) -> bool
    decreases calls.len(),
{
    if calls.len() == 0 {
        true
    } else {
        let earlier = calls.drop_last();
        let last = calls.last();
        &&& in_order(steps, start, earlier)
        &&& last.index == next_step(earlier)
        &&& last.index < steps
        &&& last.before == state_after(start, earlier)
    }
}

/// The calls are a whole run to a fixed point from `start` to `end`: they
/// are made in order, `changed` says whether one of them reported a change,
/// and they end behind the last step, or with the change that comes after
/// `usize::MAX` earlier ones.
pub open spec fn ran<T>(steps: nat, start: T, end: T, changed: bool, calls: Seq<Call<T>>) -> bool {
    &&& in_order(steps, start, calls)
    &&& end == state_after(start, calls)
    &&& changed == (changes_in(calls) > 0)
    &&& next_step(calls) == steps || changes_in(calls) == usize::MAX + 1
}

/// Calls the steps to a fixed point of the state: the steps are called in
/// order, and whenever one reports a change the run starts over from the
/// first. It ends when the steps from the first to the last have all
/// reported no change, and says whether any step ever reported one. A run
/// in which `usize::MAX` changes were reported stops at the next one.
///
/// The contract speaks of the calls that were made: they form a whole run
/// in order, and each is a call that its step can make, from the state
/// before it to the state after it with the change it reported.
pub fn repeat_until_no_change<T, F: Fn(&mut T) -> bool>(funcs: &Vec<F>, carry_over: &mut T) -> (changed:
    bool)
    requires
        forall|i: int, state: &mut T|
            0 <= i < funcs.len() ==> #[trigger] funcs[i].requires((state,)),
    ensures
        exists|calls: Seq<Call<T>>|
            {
                &&& #[trigger] ran(
                    funcs.len() as nat,
                    *old(carry_over),
                    *final(carry_over),
                    changed,
                    calls,
                )
                &&& forall|k: int|
                    #![trigger calls[k]]
                    0 <= k < calls.len() ==> calls[k].index < funcs.len() && exists|state: &mut T|
                        #![trigger funcs[calls[k].index as int].ensures((state,), calls[k].changed)]
                        {
                            &&& funcs[calls[k].index as int].ensures((state,), calls[k].changed)
                            &&& *state == calls[k].before
                            &&& *final(state) == calls[k].after
                        }
            },
{
    let ghost start = *carry_over;
    let ghost mut calls: Seq<Call<T>> = Seq::empty();
    let mut changes: usize = 0;
    let mut i: usize = 0;
    while i < funcs.len()
        invariant
            i <= funcs.len(),
            start == *old(carry_over),
            forall|k: int, state: &mut T|
                0 <= k < funcs.len() ==> #[trigger] funcs[k].requires((state,)),
            in_order(funcs.len() as nat, start, calls),
            *carry_over == state_after(start, calls),
            i == next_step(calls),
            changes == changes_in(calls),
            forall|k: int|
                #![trigger calls[k]]
                0 <= k < calls.len() ==> calls[k].index < funcs.len() && exists|state: &mut T|
                    #![trigger funcs[calls[k].index as int].ensures((state,), calls[k].changed)]
                    {
                        &&& funcs[calls[k].index as int].ensures((state,), calls[k].changed)
                        &&& *state == calls[k].before
                        &&& *final(state) == calls[k].after
                    },
        decreases usize::MAX - changes, funcs.len() - i,
    {
        let ghost before = *carry_over;
        let ghost earlier = calls;
        let step_changed = (funcs[i])(carry_over);
        proof {
            let call = Call { index: i as nat, before, after: *carry_over, changed: step_changed };
            let made = choose|state: &mut T| #[trigger]
                funcs[i as int].ensures((state,), step_changed) && *state == before && *final(state)
                    == *carry_over;
            calls = earlier.push(call);
            assert(calls.drop_last() == earlier);
            assert forall|k: int| #![trigger calls[k]] 0 <= k < calls.len() implies calls[k].index
                < funcs.len() && exists|state: &mut T|
                #![trigger funcs[calls[k].index as int].ensures((state,), calls[k].changed)]
                {
                    &&& funcs[calls[k].index as int].ensures((state,), calls[k].changed)
                    &&& *state == calls[k].before
                    &&& *final(state) == calls[k].after
                } by {
                if k < earlier.len() {
                    assert(calls[k] == earlier[k]);
                } else {
                    assert(funcs[calls[k].index as int].ensures((made,), calls[k].changed));
                }
            }
        }
        if step_changed {
            if changes == usize::MAX {
                assert(ran(funcs.len() as nat, start, *carry_over, true, calls));
                return true;
            }
            changes += 1;
            i = 0;
        } else {
            i += 1;
        }
    }
    assert(ran(funcs.len() as nat, start, *carry_over, changes > 0, calls));
    changes > 0
}

/// The first calls of a run in order are a run in order.
pub proof fn lemma_earlier_calls_in_order<T>(steps: nat, start: T, calls: Seq<Call<T>>, n: int)
    requires
        in_order(steps, start, calls),
        0 <= n <= calls.len(),
    ensures
        in_order(steps, start, calls.subrange(0, n)),
    decreases calls.len() - n,
{
    if n == calls.len() {
        assert(calls.subrange(0, n) =~= calls);
    } else {
        assert(calls.drop_last().subrange(0, n) =~= calls.subrange(0, n));
        lemma_earlier_calls_in_order(steps, start, calls.drop_last(), n);
    }
}

/// Earlier steps have first refusal: a step is called only when the steps
/// before it have just been called in turn, from the first on, and each has
/// reported no change.
pub proof fn law_called_after_idle_steps<T>(steps: nat, start: T, calls: Seq<Call<T>>, k: int)
    requires
        in_order(steps, start, calls),
        0 <= k < calls.len(),
    ensures
        calls[k].index <= k,
        forall|m: int|
            k - calls[k].index <= m < k ==> (#[trigger] calls[m]).index == m - (k - calls[k].index)
                && !calls[m].changed,
    decreases k,
{
    let upto = calls.subrange(0, k + 1);
    lemma_earlier_calls_in_order(steps, start, calls, k + 1);
    assert(upto.last() == calls[k]);
    let earlier = upto.drop_last();
    if calls[k].index > 0 {
        assert(earlier.len() > 0);
        assert(earlier.last() == calls[k - 1]);
        law_called_after_idle_steps(steps, start, calls, k - 1);
    }
}

/// A run that ends behind the last step ends with one call of each step, in
/// order, each of which reported no change.
pub proof fn law_ends_with_idle_pass<T>(steps: nat, start: T, calls: Seq<Call<T>>)
    requires
        in_order(steps, start, calls),
        next_step(calls) == steps,
        steps > 0,
    ensures
        calls.len() >= steps,
        forall|m: int|
            calls.len() - steps <= m < calls.len() ==> (#[trigger] calls[m]).index == m - (calls.len()
                - steps) && !calls[m].changed,
{
    law_called_after_idle_steps(steps, start, calls, calls.len() - 1);
}

} // verus!
