//! The matcher algebra: pure tests of a prefix of a token list, each giving
//! the number of tokens it consumes or declining.
use crate::chars::{char_text, same_text};
use crate::token::{Token, TokenView};
use crate::transform::{forest_wf, lemma_part_forest, lemma_replaced_fits, lemma_splice_forest};
use crate::transform::{replaced, splice, ActionView, Transform};
use crate::token::lemma_member;
use vstd::slice::slice_subrange;
use vstd::prelude::*;

verus! {

/// Every token of the list is well formed.
pub open spec fn all_wf<L>(tokens: Seq<TokenView<L>>) -> bool {
    forall|i: int| 0 <= i < tokens.len() ==> (#[trigger] tokens[i]).wf()
}

/// The model of a test of one token: it says of which tokens the test holds.
pub trait TestModel<L> {
    /// Whether the test holds of a token with this model.
    spec fn holds(&self, token: TokenView<L>) -> bool;
}

/// A test of one token, supplied by the caller of the algebra.
pub trait TokenTest<T: DeepView> {
    /// The model of the test.
    type Model: TestModel<T::V>;

    spec fn model(&self) -> Self::Model;

    /// Whether the test holds of the token.
    fn test(&self, token: &Token<'_, T>) -> (r: bool)
        requires
            token.deep_view().wf(),
        ensures
            r == self.model().holds(token.deep_view()),
    ;
}

/// The model of a matcher, over the model `P` of its token tests.
pub enum Pattern<P> {
    /// One token whose content is the text.
    Raw(Seq<char>),
    /// One token of which the test holds.
    First(P),
    /// The first of the options that matches.
    Choose(Seq<Pattern<P>>),
    /// The inner pattern, or nothing.
    Optional(Box<Pattern<P>>),
    /// The inner pattern zero or more times, greedily.
    Repeated(Box<Pattern<P>>),
    /// The patterns one after another.
    Multiple(Seq<Pattern<P>>),
}

/// The model of a test that holds of no token; it stands where a matcher
/// has no token test of its own.
pub struct NoTest {}

impl<L> TestModel<L> for NoTest {
    open spec fn holds(&self, token: TokenView<L>) -> bool {
        false
    }
}

/// A matcher: tried against a token list, it consumes a prefix of the list
/// or declines.
pub trait Sequence<T: DeepView> {
    /// The model of the tests of single tokens that the matcher holds.
    type Test: TestModel<T::V>;

    /// The matcher's model, which alone decides what it consumes.
    spec fn pattern(&self) -> Pattern<Self::Test>;

    /// Tries the matcher on the token list: the number of tokens that it
    /// consumes from the front, or `None` where it declines. The list is
    /// only read, and the result depends on nothing but the matcher's model
    /// and the tokens' models.
    fn match_tokens(&self, tokens: &[&Token<'_, T>]) -> (r: Option<usize>)
        requires
            all_wf(tokens.deep_view()),
        ensures
            agrees(r, matched(self.pattern(), tokens.deep_view()), tokens@.len()),
    ;
}

/// A computed result agrees with what a matcher consumes of `len` tokens:
/// both decline, or both give the same count, which is at most `len`.
pub open spec fn agrees(r: Option<usize>, matched: Option<nat>, len: nat) -> bool {
    match r {
        Some(n) => matched == Some(n as nat) && n <= len,
        None => matched is None,
    }
}

/// What a literal consumes: one token, where the list begins with a token
/// whose content is `text`.
pub open spec fn literal_matched<L>(text: Seq<char>, tokens: Seq<TokenView<L>>) -> Option<nat> {
    if tokens.len() > 0 && tokens[0].content() == text {
        Some(1)
    } else {
        None
    }
}

/// The literal matcher: consumes one token whose content is `text`.
pub struct RawSeq {
    pub text: String,
}

impl RawSeq {
    pub fn new(text: &str) -> (r: RawSeq)
        ensures
            r.text@ == text@,
    {
        RawSeq { text: text.to_owned() }
    }

    pub fn new_from_owned(text: String) -> (r: RawSeq)
        ensures
            r.text == text,
    {
        RawSeq { text }
    }
}

impl<T: DeepView> Sequence<T> for RawSeq {
    type Test = NoTest;

    open spec fn pattern(&self) -> Pattern<NoTest> {
        Pattern::Raw(self.text@)
    }

    fn match_tokens(&self, tokens: &[&Token<'_, T>]) -> (r: Option<usize>) {
        literal_match(self.text.as_str(), tokens)
    }
}

/// The tag predicate: consumes one token of which `predicate` holds.
pub struct FirstTokenSeq<F> {
    pub predicate: F,
}

/// Ordered choice: the first option that matches decides.
pub struct ChooseSeq<F> {
    pub options: Vec<AnySeq<F>>,
}

/// The optional matcher: what `option` consumes, or nothing.
pub struct OptionalSeq<F> {
    pub option: Box<AnySeq<F>>,
}

/// Greedy repetition of `to_repeat`, zero or more times.
pub struct RepeatedSeq<F> {
    pub to_repeat: Box<AnySeq<F>>,
}

/// Concatenation: every matcher of `seqs` in turn, each on what the ones
/// before it left.
pub struct MultipleSeq<F> {
    pub seqs: Vec<AnySeq<F>>,
}

/// Any of the six matchers. Composite matchers hold their parts in this form.
pub enum AnySeq<F> {
    Raw(RawSeq),
    First(FirstTokenSeq<F>),
    Choose(ChooseSeq<F>),
    Optional(OptionalSeq<F>),
    Repeated(RepeatedSeq<F>),
    Multiple(MultipleSeq<F>),
}

/// The model of a matcher.
pub open spec fn pattern_of<T: DeepView, F: TokenTest<T>>(m: AnySeq<F>) -> Pattern<F::Model>
    decreases m, 0nat,
{
    match m {
        AnySeq::Raw(s) => Pattern::Raw(s.text@),
        AnySeq::First(s) => Pattern::First(s.predicate.model()),
        AnySeq::Choose(s) => Pattern::Choose(patterns::<T, F>(s.options)),
        AnySeq::Optional(s) => Pattern::Optional(Box::new(pattern_of::<T, F>(*s.option))),
        AnySeq::Repeated(s) => Pattern::Repeated(Box::new(pattern_of::<T, F>(*s.to_repeat))),
        AnySeq::Multiple(s) => Pattern::Multiple(patterns::<T, F>(s.seqs)),
    }
}

/// The models of the first `n` matchers of a list, in order.
pub open spec fn patterns_of<T: DeepView, F: TokenTest<T>>(seqs: Vec<AnySeq<F>>, n: nat) -> Seq<
    Pattern<F::Model>,
>
    decreases seqs, n,
{
    if n == 0 || n > seqs.len() {
        Seq::empty()
    } else {
        patterns_of::<T, F>(seqs, (n - 1) as nat).push(pattern_of::<T, F>(seqs[n - 1]))
    }
}

/// The models of a list of matchers, in order.
pub open spec fn patterns<T: DeepView, F: TokenTest<T>>(seqs: Vec<AnySeq<F>>) -> Seq<
    Pattern<F::Model>,
>
    decreases seqs, seqs.len() + 1,
{
    patterns_of::<T, F>(seqs, seqs.len() as nat)
}

/// The models of a list of matchers are as many as the matchers, each the
/// model of the matcher at its place.
pub proof fn lemma_patterns<T: DeepView, F: TokenTest<T>>(seqs: Vec<AnySeq<F>>)
    ensures
        patterns::<T, F>(seqs).len() == seqs.len(),
        forall|i: int|
            0 <= i < seqs.len() ==> (#[trigger] patterns::<T, F>(seqs)[i]) == pattern_of::<T, F>(
                seqs[i],
            ),
{
    lemma_patterns_of::<T, F>(seqs, seqs.len() as nat);
}

/// A list of matchers grown by one has the models of the list before and
/// then the model of the new matcher.
pub proof fn lemma_patterns_push<T: DeepView, F: TokenTest<T>>(
    before: Vec<AnySeq<F>>,
    after: Vec<AnySeq<F>>,
    last: AnySeq<F>,
)
    requires
        after@ == before@.push(last),
    ensures
        patterns::<T, F>(after) == patterns::<T, F>(before).push(pattern_of::<T, F>(last)),
{
    lemma_patterns::<T, F>(before);
    lemma_patterns::<T, F>(after);
    assert(patterns::<T, F>(after) =~= patterns::<T, F>(before).push(pattern_of::<T, F>(last)));
}

/// The empty list of matchers has no models.
pub proof fn lemma_patterns_empty<T: DeepView, F: TokenTest<T>>(seqs: Vec<AnySeq<F>>)
    requires
        seqs.len() == 0,
    ensures
        patterns::<T, F>(seqs) == Seq::<Pattern<F::Model>>::empty(),
{
    lemma_patterns::<T, F>(seqs);
    assert(patterns::<T, F>(seqs) =~= Seq::<Pattern<F::Model>>::empty());
}

proof fn lemma_patterns_of<T: DeepView, F: TokenTest<T>>(seqs: Vec<AnySeq<F>>, n: nat)
    requires
        n <= seqs.len(),
    ensures
        patterns_of::<T, F>(seqs, n).len() == n,
        forall|i: int|
            0 <= i < n ==> (#[trigger] patterns_of::<T, F>(seqs, n)[i]) == pattern_of::<T, F>(
                seqs[i],
            ),
    decreases n,
{
    if n > 0 {
        lemma_patterns_of::<T, F>(seqs, (n - 1) as nat);
    }
}

/// What a pattern consumes from the front of `tokens`.
pub open spec fn matched<L, P: TestModel<L>>(p: Pattern<P>, tokens: Seq<TokenView<L>>) -> Option<
    nat,
>
    decreases p, 0nat, 0nat,
{
    match p {
        Pattern::Raw(text) => literal_matched(text, tokens),
        Pattern::First(test) => first_matched(test, tokens),
        Pattern::Choose(options) => choice_matched(options, tokens, 0),
        Pattern::Optional(inner) => match matched(*inner, tokens) {
            Some(n) => Some(n),
            None => Some(0),
        },
        Pattern::Repeated(inner) => Some(repeat_matched(*inner, tokens, 0)),
        Pattern::Multiple(seqs) => concat_matched(seqs, tokens, 0, 0),
    }
}

/// What a tag predicate consumes: one token, where the list begins with a
/// token of which the test holds.
pub open spec fn first_matched<L, P: TestModel<L>>(test: P, tokens: Seq<TokenView<L>>) -> Option<
    nat,
> {
    if tokens.len() > 0 && test.holds(tokens[0]) {
        Some(1)
    } else {
        None
    }
}

/// What the options from the `i`th on consume: the result of the first of
/// them that matches, `None` where none does.
pub open spec fn choice_matched<L, P: TestModel<L>>(
    options: Seq<Pattern<P>>,
    tokens: Seq<TokenView<L>>,
    i: nat,
) -> Option<nat>
    decreases options, options.len() - i, 0nat,
{
    if i >= options.len() {
        None
    } else {
        match matched(options[i as int], tokens) {
            Some(n) => Some(n),
            None => choice_matched(options, tokens, i + 1),
        }
    }
}

/// How many tokens a repetition has consumed in the end, `index` of them
/// being consumed so far. It stops at the end of the list, and where the
/// repeated pattern declines or consumes nothing.
pub open spec fn repeat_matched<L, P: TestModel<L>>(
    inner: Pattern<P>,
    tokens: Seq<TokenView<L>>,
    index: nat,
) -> nat
    decreases inner, 1nat, tokens.len() - index,
{
    if index >= tokens.len() {
        tokens.len()
    } else {
        match matched(inner, tokens.subrange(index as int, tokens.len() as int)) {
            Some(n) => if n == 0 {
                index
            } else if index + n >= tokens.len() {
                tokens.len()
            } else {
                repeat_matched(inner, tokens, index + n)
            },
            None => index,
        }
    }
}

/// What the patterns from the `i`th on consume in turn, `index` tokens being
/// consumed so far: the whole sum, or `None` as soon as one declines.
pub open spec fn concat_matched<L, P: TestModel<L>>(
    seqs: Seq<Pattern<P>>,
    tokens: Seq<TokenView<L>>,
    i: nat,
    index: nat,
) -> Option<nat>
    decreases seqs, seqs.len() - i, 0nat,
{
    if i >= seqs.len() {
        Some(index)
    } else if index > tokens.len() {
        None
    } else {
        match matched(seqs[i as int], tokens.subrange(index as int, tokens.len() as int)) {
            Some(n) => concat_matched(seqs, tokens, i + 1, index + n),
            None => None,
        }
    }
}

/// Matching is a function of the matcher's model and the tokens' models: two
/// results computed for the same model on the same tokens are the same.
pub proof fn law_match_is_deterministic<L, P: TestModel<L>>(
    p: Pattern<P>,
    tokens: Seq<TokenView<L>>,
    first: Option<usize>,
    second: Option<usize>,
)
    requires
        agrees(first, matched(p, tokens), tokens.len()),
        agrees(second, matched(p, tokens), tokens.len()),
    ensures
        first == second,
{
}

/// A pattern never consumes more tokens than the list holds.
pub proof fn law_matched_within<L, P: TestModel<L>>(p: Pattern<P>, tokens: Seq<TokenView<L>>)
    ensures
        matched(p, tokens) is Some ==> matched(p, tokens).unwrap() <= tokens.len(),
    decreases p, 0nat, 0nat,
{
    match p {
        Pattern::Raw(text) => {},
        Pattern::First(test) => {},
        Pattern::Choose(options) => lemma_choice_within(options, tokens, 0),
        Pattern::Optional(inner) => law_matched_within(*inner, tokens),
        Pattern::Repeated(inner) => lemma_repeat_within(*inner, tokens, 0),
        Pattern::Multiple(seqs) => lemma_concat_within(seqs, tokens, 0, 0),
    }
}

proof fn lemma_choice_within<L, P: TestModel<L>>(
    options: Seq<Pattern<P>>,
    tokens: Seq<TokenView<L>>,
    i: nat,
)
    ensures
        choice_matched(options, tokens, i) is Some ==> choice_matched(options, tokens, i).unwrap()
            <= tokens.len(),
    decreases options, options.len() - i, 0nat,
{
    if i < options.len() {
        law_matched_within(options[i as int], tokens);
        lemma_choice_within(options, tokens, i + 1);
    }
}

proof fn lemma_repeat_within<L, P: TestModel<L>>(
    inner: Pattern<P>,
    tokens: Seq<TokenView<L>>,
    index: nat,
)
    requires
        index <= tokens.len(),
    ensures
        index <= repeat_matched(inner, tokens, index) <= tokens.len(),
    decreases inner, 1nat, tokens.len() - index,
{
    if index < tokens.len() {
        match matched(inner, tokens.subrange(index as int, tokens.len() as int)) {
            Some(n) => {
                if n != 0 && index + n < tokens.len() {
                    lemma_repeat_within(inner, tokens, index + n);
                }
            },
            None => {},
        }
    }
}

proof fn lemma_concat_within<L, P: TestModel<L>>(
    seqs: Seq<Pattern<P>>,
    tokens: Seq<TokenView<L>>,
    i: nat,
    index: nat,
)
    requires
        index <= tokens.len(),
    ensures
        concat_matched(seqs, tokens, i, index) is Some ==> index <= concat_matched(
            seqs,
            tokens,
            i,
            index,
        ).unwrap() <= tokens.len(),
    decreases seqs, seqs.len() - i, 0nat,
{
    if i < seqs.len() {
        let rest = tokens.subrange(index as int, tokens.len() as int);
        law_matched_within(seqs[i as int], rest);
        match matched(seqs[i as int], rest) {
            Some(n) => lemma_concat_within(seqs, tokens, i + 1, index + n),
            None => {},
        }
    }
}

/// An optional pattern and a repetition never decline.
pub proof fn law_never_declines<L, P: TestModel<L>>(inner: Pattern<P>, tokens: Seq<TokenView<L>>)
    ensures
        matched(Pattern::Optional(Box::new(inner)), tokens) is Some,
        matched(Pattern::Repeated(Box::new(inner)), tokens) is Some,
{
}

/// Ordered choice: where the options before the `i`th all decline and the
/// `i`th matches, the choice consumes what the `i`th consumes, whatever the
/// later options would consume.
pub proof fn law_choice_takes_first<L, P: TestModel<L>>(
    options: Seq<Pattern<P>>,
    tokens: Seq<TokenView<L>>,
    i: nat,
)
    requires
        i < options.len(),
        forall|k: int| 0 <= k < i ==> (#[trigger] matched(options[k], tokens)) is None,
        matched(options[i as int], tokens) is Some,
    ensures
        matched(Pattern::Choose(options), tokens) == matched(options[i as int], tokens),
{
    lemma_choice_skips(options, tokens, 0, i);
}

proof fn lemma_choice_skips<L, P: TestModel<L>>(
    options: Seq<Pattern<P>>,
    tokens: Seq<TokenView<L>>,
    from: nat,
    to: nat,
)
    requires
        from <= to <= options.len(),
        forall|k: int| from <= k < to ==> (#[trigger] matched(options[k], tokens)) is None,
    ensures
        choice_matched(options, tokens, from) == choice_matched(options, tokens, to),
    decreases to - from,
{
    if from < to {
        assert(matched(options[from as int], tokens) is None);
        lemma_choice_skips(options, tokens, from + 1, to);
    }
}

/// The concatenation of two literals consumes two tokens exactly where the
/// list begins with the first text and then the second, and declines
/// everywhere else.
pub proof fn law_concat_of_two_literals<L, P: TestModel<L>>(
    a: Seq<char>,
    b: Seq<char>,
    tokens: Seq<TokenView<L>>,
)
    ensures
        matched(Pattern::<P>::Multiple(seq![Pattern::Raw(a), Pattern::Raw(b)]), tokens) == if tokens.len()
            >= 2 && tokens[0].content() == a && tokens[1].content() == b {
            Some(2nat)
        } else {
            None
        },
{
    let seqs = seq![Pattern::<P>::Raw(a), Pattern::<P>::Raw(b)];
    let len = tokens.len() as int;
    assert(tokens.subrange(0, len) =~= tokens);
    assert(seqs[0] == Pattern::<P>::Raw(a));
    assert(seqs[1] == Pattern::<P>::Raw(b));
    assert(matched(seqs[0], tokens) == literal_matched(a, tokens));
    if tokens.len() > 0 && tokens[0].content() == a {
        let rest = tokens.subrange(1, len);
        assert(concat_matched(seqs, tokens, 0, 0) == concat_matched(seqs, tokens, 1, 1));
        assert(matched(seqs[1], rest) == literal_matched(b, rest));
        if rest.len() > 0 {
            assert(rest[0] == tokens[1]);
        }
        if tokens.len() >= 2 && tokens[1].content() == b {
            assert(concat_matched(seqs, tokens, 1, 1) == concat_matched(seqs, tokens, 2, 2));
        }
    }
}

/// Where a repetition of a literal stops, the list ends or goes on with a
/// token that is not the literal.
proof fn lemma_repeat_stops<L, P: TestModel<L>>(text: Seq<char>, tokens: Seq<TokenView<L>>, index: nat)
    requires
        index <= tokens.len(),
    ensures
        ({
            let end = repeat_matched(Pattern::<P>::Raw(text), tokens, index);
            index <= end <= tokens.len() && (end < tokens.len() ==> tokens[end as int].content()
                != text)
        }),
    decreases tokens.len() - index,
{
    if index < tokens.len() {
        let rest = tokens.subrange(index as int, tokens.len() as int);
        assert(rest[0] == tokens[index as int]);
        assert(matched(Pattern::<P>::Raw(text), rest) == literal_matched(text, rest));
        if rest[0].content() == text && index + 1 < tokens.len() {
            lemma_repeat_stops::<L, P>(text, tokens, index + 1);
        }
    }
}

/// A greedy repetition releases nothing: the repetition of a literal
/// followed by the same literal declines on every list.
pub proof fn law_greedy_repeat_keeps_all<L, P: TestModel<L>>(
    text: Seq<char>,
    tokens: Seq<TokenView<L>>,
)
    ensures
        matched(
            Pattern::<P>::Multiple(
                seq![Pattern::Repeated(Box::new(Pattern::Raw(text))), Pattern::Raw(text)],
            ),
            tokens,
        ) is None,
{
    let lit = Pattern::<P>::Raw(text);
    let seqs = seq![Pattern::Repeated(Box::new(lit)), lit];
    let len = tokens.len() as int;
    let end = repeat_matched(lit, tokens, 0);
    lemma_repeat_stops::<L, P>(text, tokens, 0);
    assert(tokens.subrange(0, len) =~= tokens);
    assert(seqs[0] == Pattern::Repeated(Box::new(lit)));
    assert(seqs[1] == lit);
    assert(matched(seqs[0], tokens) == Some(end));
    assert(concat_matched(seqs, tokens, 0, 0) == concat_matched(seqs, tokens, 1, end));
    let rest = tokens.subrange(end as int, len);
    if rest.len() > 0 {
        assert(rest[0] == tokens[end as int]);
    }
    assert(matched(seqs[1], rest) == literal_matched(text, rest));
    assert(matched(seqs[1], rest) is None);
}

/// The models of the tokens from the `index`th on are the same part of the
/// list's models.
pub proof fn lemma_rest_view<'a, T: DeepView>(
    tokens: &[&Token<'a, T>],
    rest: &[&Token<'a, T>],
    index: int,
)
    requires
        0 <= index <= tokens@.len(),
        rest@ == tokens@.subrange(index, tokens@.len() as int),
    ensures
        rest.deep_view() == tokens.deep_view().subrange(index, tokens@.len() as int),
        all_wf(tokens.deep_view()) ==> all_wf(rest.deep_view()),
{
    let whole = tokens.deep_view();
    let part = whole.subrange(index, tokens@.len() as int);
    assert(rest.deep_view() =~= part);
    if all_wf(whole) {
        assert forall|i: int| 0 <= i < part.len() implies (#[trigger] part[i]).wf() by {
            assert(part[i] == whole[i + index]);
        }
    }
}

/// Tries a matcher of any of the six kinds on a token list.
pub fn any_match<T: DeepView, F: TokenTest<T>>(m: &AnySeq<F>, tokens: &[&Token<'_, T>]) -> (r:
    Option<usize>)
    requires
        all_wf(tokens.deep_view()),
    ensures
        agrees(r, matched(pattern_of::<T, F>(*m), tokens.deep_view()), tokens@.len()),
    decreases m, 0nat, 0nat,
{
    match m {
        AnySeq::Raw(s) => literal_match(s.text.as_str(), tokens),
        AnySeq::First(s) => first_match(&s.predicate, tokens),
        AnySeq::Choose(s) => choice_match(&s.options, tokens),
        AnySeq::Optional(s) => match any_match(&*s.option, tokens) {
            Some(n) => Some(n),
            None => Some(0),
        },
        AnySeq::Repeated(s) => Some(repeat_match(&*s.to_repeat, tokens)),
        AnySeq::Multiple(s) => concat_match(&s.seqs, tokens),
    }
}

/// Tries a literal: one token whose content is `text`.
pub fn literal_match<T: DeepView>(text: &str, tokens: &[&Token<'_, T>]) -> (r: Option<usize>)
    requires
        all_wf(tokens.deep_view()),
    ensures
        agrees(r, literal_matched(text@, tokens.deep_view()), tokens@.len()),
{
    if tokens.len() == 0 {
        return None;
    }
    assert(tokens.deep_view()[0] == tokens@[0].deep_view());
    if same_text(tokens[0].content(), text) {
        Some(1)
    } else {
        None
    }
}

/// Tries a tag predicate: one token of which the test holds.
pub fn first_match<T: DeepView, F: TokenTest<T>>(predicate: &F, tokens: &[&Token<'_, T>]) -> (r:
    Option<usize>)
    requires
        all_wf(tokens.deep_view()),
    ensures
        agrees(r, first_matched(predicate.model(), tokens.deep_view()), tokens@.len()),
{
    if tokens.len() == 0 {
        return None;
    }
    assert(tokens.deep_view()[0] == tokens@[0].deep_view());
    if predicate.test(tokens[0]) {
        Some(1)
    } else {
        None
    }
}

/// Tries the options in order and gives the result of the first that matches.
pub fn choice_match<T: DeepView, F: TokenTest<T>>(
    options: &Vec<AnySeq<F>>,
    tokens: &[&Token<'_, T>],
) -> (r: Option<usize>)
    requires
        all_wf(tokens.deep_view()),
    ensures
        agrees(
            r,
            choice_matched(patterns::<T, F>(*options), tokens.deep_view(), 0),
            tokens@.len(),
        ),
    decreases options, options.len(), 0nat,
{
    let ghost models = patterns::<T, F>(*options);
    proof {
        lemma_patterns::<T, F>(*options);
    }
    let mut i: usize = 0;
    while i < options.len()
        invariant
            i <= options.len(),
            all_wf(tokens.deep_view()),
            models == patterns::<T, F>(*options),
            models.len() == options.len(),
            forall|k: int|
                0 <= k < options.len() ==> (#[trigger] models[k]) == pattern_of::<T, F>(options[k]),
            choice_matched(models, tokens.deep_view(), 0) == choice_matched(
                models,
                tokens.deep_view(),
                i as nat,
            ),
        decreases options.len() - i,
    {
        let r = any_match(&options[i], tokens);
        if r.is_some() {
            return r;
        }
        i += 1;
    }
    None
}

/// Applies a matcher again and again, each time on what is left, and gives
/// the number of tokens consumed in all.
pub fn repeat_match<T: DeepView, F: TokenTest<T>>(inner: &AnySeq<F>, tokens: &[&Token<'_, T>]) -> (r:
    usize)
    requires
        all_wf(tokens.deep_view()),
    ensures
        r == repeat_matched(pattern_of::<T, F>(*inner), tokens.deep_view(), 0),
        r <= tokens@.len(),
    decreases inner, 1nat, tokens@.len(),
{
    let ghost model = pattern_of::<T, F>(*inner);
    let mut index: usize = 0;
    while index < tokens.len()
        invariant
            index <= tokens@.len(),
            all_wf(tokens.deep_view()),
            model == pattern_of::<T, F>(*inner),
            repeat_matched(model, tokens.deep_view(), 0) == repeat_matched(
                model,
                tokens.deep_view(),
                index as nat,
            ),
        decreases tokens@.len() - index,
    {
        let rest = slice_subrange(tokens, index, tokens.len());
        proof {
            lemma_rest_view(tokens, rest, index as int);
        }
        match any_match(inner, rest) {
            Some(n) => {
                if n == 0 {
                    return index;
                }
                index += n;
            },
            None => {
                return index;
            },
        }
    }
    index
}

/// Applies the matchers in turn, each on what the ones before it left, and
/// gives the number of tokens consumed in all, or `None` once one declines.
pub fn concat_match<T: DeepView, F: TokenTest<T>>(
    seqs: &Vec<AnySeq<F>>,
    tokens: &[&Token<'_, T>],
) -> (r: Option<usize>)
    requires
        all_wf(tokens.deep_view()),
    ensures
        agrees(
            r,
            concat_matched(patterns::<T, F>(*seqs), tokens.deep_view(), 0, 0),
            tokens@.len(),
        ),
    decreases seqs, seqs.len(), 0nat,
{
    let ghost models = patterns::<T, F>(*seqs);
    proof {
        lemma_patterns::<T, F>(*seqs);
    }
    let mut index: usize = 0;
    let mut i: usize = 0;
    while i < seqs.len()
        invariant
            i <= seqs.len(),
            index <= tokens@.len(),
            all_wf(tokens.deep_view()),
            models == patterns::<T, F>(*seqs),
            models.len() == seqs.len(),
            forall|k: int|
                0 <= k < seqs.len() ==> (#[trigger] models[k]) == pattern_of::<T, F>(seqs[k]),
            concat_matched(models, tokens.deep_view(), 0, 0) == concat_matched(
                models,
                tokens.deep_view(),
                i as nat,
                index as nat,
            ),
        decreases seqs.len() - i,
    {
        let rest = slice_subrange(tokens, index, tokens.len());
        proof {
            lemma_rest_view(tokens, rest, index as int);
        }
        match any_match(&seqs[i], rest) {
            Some(n) => {
                index += n;
            },
            None => {
                return None;
            },
        }
        i += 1;
    }
    Some(index)
}

impl<F> FirstTokenSeq<F> {
    pub fn new(predicate: F) -> (r: FirstTokenSeq<F>)
        ensures
            r.predicate == predicate,
    {
        FirstTokenSeq { predicate }
    }
}

impl<T: DeepView, F: TokenTest<T>> Sequence<T> for FirstTokenSeq<F> {
    type Test = F::Model;

    open spec fn pattern(&self) -> Pattern<F::Model> {
        Pattern::First(self.predicate.model())
    }

    fn match_tokens(&self, tokens: &[&Token<'_, T>]) -> (r: Option<usize>) {
        first_match(&self.predicate, tokens)
    }
}

impl<F> ChooseSeq<F> {
    pub fn new(options: Vec<AnySeq<F>>) -> (r: ChooseSeq<F>)
        ensures
            r.options == options,
    {
        ChooseSeq { options }
    }

    /// The choice among the characters of `text`, each as a literal, in the
    /// order of the text.
    pub fn from_str(text: &str) -> (r: ChooseSeq<F>)
        ensures
            r.options.len() == text@.len(),
            forall|i: int|
                0 <= i < text@.len() ==> (#[trigger] r.options[i]) is Raw && r.options[i]->Raw_0.text@
                    == seq![text@[i]],
    {
        let n = text.unicode_len();
        let mut options: Vec<AnySeq<F>> = Vec::new();
        let mut i: usize = 0;
        while i < n
            invariant
                n == text@.len(),
                i <= n,
                options.len() == i,
                forall|k: int|
                    0 <= k < i ==> (#[trigger] options[k]) is Raw && options[k]->Raw_0.text@
                        == seq![text@[k]],
            decreases n - i,
        {
            let c = text.get_char(i);
            options.push(AnySeq::Raw(RawSeq::new_from_owned(char_text(c))));
            i += 1;
        }
        ChooseSeq { options }
    }
}

impl<T: DeepView, F: TokenTest<T>> Sequence<T> for ChooseSeq<F> {
    type Test = F::Model;

    open spec fn pattern(&self) -> Pattern<F::Model> {
        Pattern::Choose(patterns::<T, F>(self.options))
    }

    fn match_tokens(&self, tokens: &[&Token<'_, T>]) -> (r: Option<usize>) {
        choice_match(&self.options, tokens)
    }
}

impl<F> OptionalSeq<F> {
    pub fn new(option: Box<AnySeq<F>>) -> (r: OptionalSeq<F>)
        ensures
            r.option == option,
    {
        OptionalSeq { option }
    }
}

impl<T: DeepView, F: TokenTest<T>> Sequence<T> for OptionalSeq<F> {
    type Test = F::Model;

    open spec fn pattern(&self) -> Pattern<F::Model> {
        Pattern::Optional(Box::new(pattern_of::<T, F>(*self.option)))
    }

    fn match_tokens(&self, tokens: &[&Token<'_, T>]) -> (r: Option<usize>) {
        match any_match(&*self.option, tokens) {
            Some(n) => Some(n),
            None => Some(0),
        }
    }
}

impl<F> RepeatedSeq<F> {
    pub fn new(to_repeat: Box<AnySeq<F>>) -> (r: RepeatedSeq<F>)
        ensures
            r.to_repeat == to_repeat,
    {
        RepeatedSeq { to_repeat }
    }
}

impl<T: DeepView, F: TokenTest<T>> Sequence<T> for RepeatedSeq<F> {
    type Test = F::Model;

    open spec fn pattern(&self) -> Pattern<F::Model> {
        Pattern::Repeated(Box::new(pattern_of::<T, F>(*self.to_repeat)))
    }

    fn match_tokens(&self, tokens: &[&Token<'_, T>]) -> (r: Option<usize>) {
        Some(repeat_match(&*self.to_repeat, tokens))
    }
}

impl<F> MultipleSeq<F> {
    pub fn new(seqs: Vec<AnySeq<F>>) -> (r: MultipleSeq<F>)
        ensures
            r.seqs == seqs,
    {
        MultipleSeq { seqs }
    }
}

impl<T: DeepView, F: TokenTest<T>> Sequence<T> for MultipleSeq<F> {
    type Test = F::Model;

    open spec fn pattern(&self) -> Pattern<F::Model> {
        Pattern::Multiple(patterns::<T, F>(self.seqs))
    }

    fn match_tokens(&self, tokens: &[&Token<'_, T>]) -> (r: Option<usize>) {
        concat_match(&self.seqs, tokens)
    }
}

impl<T: DeepView, F: TokenTest<T>> Sequence<T> for AnySeq<F> {
    type Test = F::Model;

    open spec fn pattern(&self) -> Pattern<F::Model> {
        pattern_of::<T, F>(*self)
    }

    fn match_tokens(&self, tokens: &[&Token<'_, T>]) -> (r: Option<usize>) {
        any_match(self, tokens)
    }
}

/// Whether a matcher consumes the whole token list.
pub fn match_all_tokens<T: DeepView, S: Sequence<T>>(seq: &S, tokens: &[&Token<'_, T>]) -> (r: bool)
    requires
        all_wf(tokens.deep_view()),
    ensures
        r == (matched(seq.pattern(), tokens.deep_view()) == Some(tokens@.len())),
{
    match seq.match_tokens(tokens) {
        Some(n) => n == tokens.len(),
        None => false,
    }
}

/// The tokens of a forest are all well formed.
pub proof fn lemma_forest_all_wf<L>(tokens: Seq<TokenView<L>>)
    requires
        forest_wf(tokens),
    ensures
        all_wf(tokens),
{
    assert forall|i: int| 0 <= i < tokens.len() implies (#[trigger] tokens[i]).wf() by {
        lemma_member(tokens, tokens[0].root, i);
    }
}

/// References to the tokens of a list from the `start`th on, in order.
pub fn refs_from<'b, 'a, T: DeepView>(tokens: &'b Vec<Token<'a, T>>, start: usize) -> (r: Vec<
    &'b Token<'a, T>,
>)
    requires
        start <= tokens.len(),
    ensures
        r.deep_view() == tokens.deep_view().subrange(start as int, tokens.len() as int),
{
    let mut refs: Vec<&'b Token<'a, T>> = Vec::new();
    let mut i: usize = start;
    while i < tokens.len()
        invariant
            start <= i <= tokens.len(),
            refs.len() == i - start,
            forall|k: int| 0 <= k < refs.len() ==> *(#[trigger] refs[k]) == tokens[start + k],
        decreases tokens.len() - i,
    {
        refs.push(&tokens[i]);
        i += 1;
    }
    assert(refs.deep_view() =~= tokens.deep_view().subrange(start as int, tokens.len() as int));
    refs
}

/// What a pattern consumes of a list from the `start`th token on.
pub open spec fn matched_at<L, P: TestModel<L>>(
    p: Pattern<P>,
    tokens: Seq<TokenView<L>>,
    start: int,
) -> Option<nat> {
    matched(p, tokens.subrange(start, tokens.len() as int))
}

/// The list after the action has replaced the run of `n` tokens at `start`.
pub open spec fn rewritten<L>(
    action: ActionView<L>,
    tokens: Seq<TokenView<L>>,
    start: int,
    n: int,
) -> Seq<TokenView<L>> {
    splice(tokens, start, n, replaced(action, tokens.subrange(start, start + n)))
}

/// Rewriting a run of a forest gives a forest, shorter by the run and longer
/// by the replacement.
pub proof fn lemma_rewritten<L>(action: ActionView<L>, tokens: Seq<TokenView<L>>, start: int, n: int)
    requires
        forest_wf(tokens),
        0 <= start,
        0 <= n,
        start + n <= tokens.len(),
    ensures
        forest_wf(rewritten(action, tokens, start, n)),
        rewritten(action, tokens, start, n).len() == tokens.len() - n + replaced(
            action,
            tokens.subrange(start, start + n),
        ).len(),
{
    lemma_part_forest(tokens, start, start + n);
    lemma_replaced_fits(action, tokens.subrange(start, start + n));
    lemma_splice_forest(tokens, start, n, replaced(action, tokens.subrange(start, start + n)));
}

/// Tries a matcher on a list from the `start_index`th token on.
pub fn match_at<T: DeepView, S: Sequence<T>>(
    seq: &S,
    tokens: &Vec<Token<'_, T>>,
    start_index: usize,
) -> (r: Option<usize>)
    requires
        start_index <= tokens.len(),
        forest_wf(tokens.deep_view()),
    ensures
        agrees(
            r,
            matched_at(seq.pattern(), tokens.deep_view(), start_index as int),
            (tokens.len() - start_index) as nat,
        ),
{
    let refs = refs_from(tokens, start_index);
    proof {
        lemma_part_forest(tokens.deep_view(), start_index as int, tokens.len() as int);
        lemma_forest_all_wf(refs.deep_view());
    }
    let slice = refs.as_slice();
    assert(slice.deep_view() =~= refs.deep_view());
    seq.match_tokens(slice)
}

/// Puts what the action makes of the run of `len` tokens at `start_index` in
/// the place of the run, and gives the number of tokens put there.
pub fn splice_at<'a, T: DeepView, A: Transform<T>>(
    transform: &A,
    tokens: &mut Vec<Token<'a, T>>,
    start_index: usize,
    len: usize,
) -> (r: usize)
    requires
        transform.ready(),
        forest_wf(old(tokens).deep_view()),
        start_index + len <= old(tokens).len(),
    ensures
        final(tokens).deep_view() == rewritten(
            transform.action(),
            old(tokens).deep_view(),
            start_index as int,
            len as int,
        ),
        r == replaced(
            transform.action(),
            old(tokens).deep_view().subrange(start_index as int, start_index + len),
        ).len(),
        final(tokens).len() == old(tokens).len() - len + r,
        forest_wf(final(tokens).deep_view()),
{
    let ghost before = tokens.deep_view();
    let end_index = start_index + len;
    let mut tail = tokens.split_off(end_index);
    let run = tokens.split_off(start_index);
    proof {
        assert(run.deep_view() =~= before.subrange(start_index as int, end_index as int));
        assert(tail.deep_view() =~= before.subrange(end_index as int, before.len() as int));
        assert(tokens.deep_view() =~= before.subrange(0, start_index as int));
        lemma_part_forest(before, start_index as int, end_index as int);
    }
    let mut new_tox = transform.transform(run);
    let new_len = new_tox.len();
    let ghost out = new_tox.deep_view();
    tokens.append(&mut new_tox);
    tokens.append(&mut tail);
    proof {
        assert(tokens.deep_view() =~= splice(before, start_index as int, len as int, out));
        lemma_rewritten(transform.action(), before, start_index as int, len as int);
    }
    new_len
}

/// Tries the matcher on the list from the `start_index`th token on. Where it
/// matches, the action's replacement takes the place of the matched run and
/// the result is the number of tokens put there; where it declines, the
/// list stays as it is.
pub fn test_and_transform<'a, T: DeepView, S: Sequence<T>, A: Transform<T>>(
    seq: &S,
    transform: &A,
    tokens: &mut Vec<Token<'a, T>>,
    start_index: usize,
) -> (r: Option<usize>)
    requires
        transform.ready(),
        forest_wf(old(tokens).deep_view()),
        start_index <= old(tokens).len(),
    ensures
        forest_wf(final(tokens).deep_view()),
        match matched_at(seq.pattern(), old(tokens).deep_view(), start_index as int) {
            Some(n) => {
                &&& start_index + n <= old(tokens).len()
                &&& final(tokens).deep_view() == rewritten(
                    transform.action(),
                    old(tokens).deep_view(),
                    start_index as int,
                    n as int,
                )
                &&& r == Some(
                    replaced(
                        transform.action(),
                        old(tokens).deep_view().subrange(start_index as int, start_index + n),
                    ).len() as usize,
                )
            },
            None => r is None && final(tokens).deep_view() == old(tokens).deep_view(),
        },
{
    match match_at(seq, tokens, start_index) {
        Some(len) => Some(splice_at(transform, tokens, start_index, len)),
        None => None,
    }
}

/// The run that a sweep over all matches rewrites at `index`: what the
/// pattern consumes there, where that is at least one token. A match of no
/// tokens leaves nothing to rewrite, and such a sweep passes over it.
pub open spec fn fires_at<L, P: TestModel<L>>(
    p: Pattern<P>,
    tokens: Seq<TokenView<L>>,
    index: int,
) -> Option<nat> {
    match matched_at(p, tokens, index) {
        Some(n) => if 0 < n && index + n <= tokens.len() {
            Some(n)
        } else {
            None
        },
        None => None,
    }
}

/// The list after one pass from `index` on that rewrites every match: where
/// the rule fires, the pass goes on behind the replacement, elsewhere at the
/// next token.
pub open spec fn swept<L, P: TestModel<L>>(
    p: Pattern<P>,
    action: ActionView<L>,
    tokens: Seq<TokenView<L>>,
    index: nat,
) -> Seq<TokenView<L>>
    decreases tokens.len() - index,
{
    if index >= tokens.len() {
        tokens
    } else {
        match fires_at(p, tokens, index as int) {
            Some(n) => {
                let out = replaced(action, tokens.subrange(index as int, index as int + n));
                swept(p, action, splice(tokens, index as int, n as int, out), index + out.len())
            },
            None => swept(p, action, tokens, index + 1),
        }
    }
}

/// Whether a pass from `index` on rewrites anything.
pub open spec fn sweep_fires<L, P: TestModel<L>>(
    p: Pattern<P>,
    tokens: Seq<TokenView<L>>,
    index: nat,
) -> bool
    decreases tokens.len() - index,
{
    if index >= tokens.len() {
        false
    } else {
        match fires_at(p, tokens, index as int) {
            Some(n) => true,
            None => sweep_fires(p, tokens, index + 1),
        }
    }
}

/// The list after the first match at or behind `index` has been rewritten.
/// The first position at which the pattern matches decides: where it
/// consumes tokens there, they give way to the replacement; where it
/// consumes none, nothing is rewritten. `None` stands for a list that stays
/// as it is, the pattern matching nowhere or first on no token.
pub open spec fn first_rewritten<L, P: TestModel<L>>(
    p: Pattern<P>,
    action: ActionView<L>,
    tokens: Seq<TokenView<L>>,
    index: nat,
) -> Option<Seq<TokenView<L>>>
    decreases tokens.len() - index,
{
    if index >= tokens.len() {
        None
    } else {
        match matched_at(p, tokens, index as int) {
            Some(n) => if 0 < n && index + n <= tokens.len() {
                Some(rewritten(action, tokens, index as int, n as int))
            } else {
                None
            },
            None => first_rewritten(p, action, tokens, index + 1),
        }
    }
}

/// One pass over the list, left to right, that rewrites every match: at each
/// position the matcher is tried; where it consumes tokens, the action's
/// replacement takes their place and the pass goes on behind it. The result
/// says whether anything was rewritten.
pub fn replace_all_matches<'a, T: DeepView, S: Sequence<T>, A: Transform<T>>(
    seq: &S,
    transform: &A,
    tokens: &mut Vec<Token<'a, T>>,
) -> (changed: bool)
    requires
        transform.ready(),
        forest_wf(old(tokens).deep_view()),
    ensures
        forest_wf(final(tokens).deep_view()),
        final(tokens).deep_view() == swept(
            seq.pattern(),
            transform.action(),
            old(tokens).deep_view(),
            0,
        ),
        changed == sweep_fires(seq.pattern(), old(tokens).deep_view(), 0),
        !changed ==> final(tokens).deep_view() == old(tokens).deep_view(),
{
    let ghost before = tokens.deep_view();
    let mut start_index: usize = 0;
    let mut changed = false;
    while start_index < tokens.len()
        invariant
            transform.ready(),
            forest_wf(tokens.deep_view()),
            swept(seq.pattern(), transform.action(), before, 0) == swept(
                seq.pattern(),
                transform.action(),
                tokens.deep_view(),
                start_index as nat,
            ),
            sweep_fires(seq.pattern(), before, 0) == (changed || sweep_fires(
                seq.pattern(),
                tokens.deep_view(),
                start_index as nat,
            )),
            !changed ==> tokens.deep_view() == before,
        decreases tokens.len() - start_index,
    {
        match match_at(seq, tokens, start_index) {
            Some(len) => {
                if len > 0 {
                    let put = splice_at(transform, tokens, start_index, len);
                    start_index += put;
                    changed = true;
                } else {
                    start_index += 1;
                }
            },
            None => {
                start_index += 1;
            },
        }
    }
    changed
}

/// Rewrites the first match: the matcher is tried at each position from the
/// left, and the first position at which it matches ends the search. Where
/// it consumes tokens there, the action's replacement takes their place;
/// where it consumes none, nothing is rewritten. The result says whether
/// anything was rewritten.
pub fn replace_first_match<'a, T: DeepView, S: Sequence<T>, A: Transform<T>>(
    seq: &S,
    transform: &A,
    tokens: &mut Vec<Token<'a, T>>,
) -> (changed: bool)
    requires
        transform.ready(),
        forest_wf(old(tokens).deep_view()),
    ensures
        forest_wf(final(tokens).deep_view()),
        match first_rewritten(seq.pattern(), transform.action(), old(tokens).deep_view(), 0) {
            Some(after) => changed && final(tokens).deep_view() == after,
            None => !changed && final(tokens).deep_view() == old(tokens).deep_view(),
        },
{
    let ghost before = tokens.deep_view();
    let mut start_index: usize = 0;
    while start_index < tokens.len()
        invariant
            transform.ready(),
            forest_wf(tokens.deep_view()),
            tokens.deep_view() == before,
            before == old(tokens).deep_view(),
            first_rewritten(seq.pattern(), transform.action(), before, 0) == first_rewritten(
                seq.pattern(),
                transform.action(),
                before,
                start_index as nat,
            ),
        decreases tokens.len() - start_index,
    {
        match match_at(seq, tokens, start_index) {
            Some(len) => {
                if len > 0 {
                    assert(first_rewritten(
                        seq.pattern(),
                        transform.action(),
                        before,
                        start_index as nat,
                    ) == Some(
                        rewritten(transform.action(), before, start_index as int, len as int),
                    ));
                    let _ = splice_at(transform, tokens, start_index, len);
                    return true;
                }
                assert(first_rewritten(
                    seq.pattern(),
                    transform.action(),
                    before,
                    start_index as nat,
                ) is None);
                return false;
            },
            None => {},
        }
        start_index += 1;
    }
    false
}

} // verus!
