//! The fixed rule set that tokenizes and tags the source of the rule
//! language. It is written by hand, with the same matchers and actions that
//! the rule language compiles into.
use crate::meta::{lemma_rules, lemma_rules_push, letters, rules, Probe, ProbeView, RepTree};
use crate::meta::{RuleView, SeqProg, Tags};
use crate::sequence::{lemma_patterns, lemma_patterns_empty, lemma_patterns_push, pattern_of, patterns};
use crate::sequence::{AnySeq, ChooseSeq, FirstTokenSeq, MultipleSeq, Pattern, RawSeq, RepeatedSeq};
use crate::transform::{AnyTransform, DeepTransform, RemoveTransform, ShallowTransform};
use crate::transform::{action_of, ActionView};
use vstd::prelude::*;

verus! {

/// The model of a matcher of tagged tokens.
pub type Shape = Pattern<ProbeView>;

/// The model of a matcher that this file builds.
pub open spec fn shape(m: AnySeq<Probe>) -> Shape {
    pattern_of::<Vec<String>, Probe>(m)
}

/// The models of a list of matchers that this file builds.
pub open spec fn shapes(list: Vec<AnySeq<Probe>>) -> Seq<Shape> {
    patterns::<Vec<String>, Probe>(list)
}

/// A token that carries the tag.
pub open spec fn tagged(tag: Seq<char>) -> Shape {
    Pattern::First(ProbeView::HasTag(tag))
}

/// A token whose content is not the text.
pub open spec fn other_than(text: Seq<char>) -> Shape {
    Pattern::First(ProbeView::Not(text))
}

/// The pattern zero or more times.
pub open spec fn many(inner: Shape) -> Shape {
    Pattern::Repeated(Box::new(inner))
}

/// A literal for each of the texts, in order.
pub open spec fn lits(texts: Seq<Seq<char>>) -> Seq<Shape> {
    Seq::new(texts.len(), |i: int| Pattern::Raw(texts[i]))
}

/// The opening literals, then any number of tokens other than `stop`, then
/// the closing literals.
pub open spec fn delimited(open: Seq<Seq<char>>, stop: Seq<char>, close: Seq<Seq<char>>) -> Shape {
    Pattern::Multiple(lits(open).push(many(other_than(stop))) + lits(close))
}

/// An expression followed by the operator.
pub open spec fn postfix(op: Seq<char>) -> Shape {
    Pattern::Multiple(seq![tagged("expr"@), Pattern::Raw(op)])
}

/// Two or more expressions with the operator between each two.
pub open spec fn chain(op: Seq<char>) -> Shape {
    Pattern::Multiple(
        seq![
            tagged("expr"@),
            Pattern::Raw(op),
            many(Pattern::Multiple(seq![tagged("expr"@), Pattern::Raw(op)])),
            tagged("expr"@),
        ],
    )
}

/// An expression, the operator, and a list of words with commas between
/// them that a semicolon ends.
pub open spec fn declared(op: Seq<char>) -> Shape {
    Pattern::Multiple(
        seq![
            tagged("expr"@),
            Pattern::Raw(op),
            Pattern::Multiple(
                seq![
                    many(Pattern::Multiple(seq![tagged("word"@), Pattern::Raw(","@)])),
                    tagged("word"@),
                    Pattern::Raw(";"@),
                ],
            ),
        ],
    )
}

/// Three patterns one after another.
pub open spec fn three(a: Shape, b: Shape, c: Shape) -> Shape {
    Pattern::Multiple(seq![a, b, c])
}

/// The literal matcher for `text`.
fn raw(text: &str) -> (r: AnySeq<Probe>)
    ensures
        shape(r) == Pattern::<ProbeView>::Raw(text@),
{
    AnySeq::Raw(RawSeq::new(text))
}

/// The matcher of one token that carries `tag`.
fn with_tag(tag: &str) -> (r: AnySeq<Probe>)
    ensures
        shape(r) == tagged(tag@),
{
    AnySeq::First(FirstTokenSeq::new(Probe::HasTag(tag.to_owned())))
}

/// The matcher of one token whose content is not `text`.
fn not_text(text: &str) -> (r: AnySeq<Probe>)
    ensures
        shape(r) == other_than(text@),
{
    AnySeq::First(FirstTokenSeq::new(Probe::Not(text.to_owned())))
}

/// The repetition of a matcher.
fn repeated(inner: AnySeq<Probe>) -> (r: AnySeq<Probe>)
    ensures
        shape(r) == many(shape(inner)),
{
    AnySeq::Repeated(RepeatedSeq::new(Box::new(inner)))
}

/// The concatenation of matchers.
fn in_turn(parts: Vec<AnySeq<Probe>>) -> (r: AnySeq<Probe>)
    ensures
        shape(r) == Pattern::Multiple(shapes(parts)),
{
    AnySeq::Multiple(MultipleSeq::new(parts))
}

/// An empty list of matchers.
fn no_parts() -> (r: Vec<AnySeq<Probe>>)
    ensures
        shapes(r) == Seq::<Shape>::empty(),
{
    let r: Vec<AnySeq<Probe>> = Vec::new();
    proof {
        lemma_patterns_empty::<Vec<String>, Probe>(r);
    }
    r
}

/// Adds a matcher to the end of a list.
fn add_part(parts: &mut Vec<AnySeq<Probe>>, part: AnySeq<Probe>)
    ensures
        shapes(*final(parts)) == shapes(*old(parts)).push(shape(part)),
{
    let ghost before = *parts;
    parts.push(part);
    proof {
        lemma_patterns_push::<Vec<String>, Probe>(before, *parts, part);
    }
}

/// Adds a literal matcher for each text to the end of a list.
fn add_literals(parts: &mut Vec<AnySeq<Probe>>, texts: &Vec<&str>)
    ensures
        shapes(*final(parts)) == shapes(*old(parts)) + lits(texts.deep_view()),
{
    let ghost before = shapes(*parts);
    let mut i: usize = 0;
    assert(before + lits(texts.deep_view()).subrange(0, 0) =~= before);
    while i < texts.len()
        invariant
            i <= texts.len(),
            shapes(*parts) == before + lits(texts.deep_view()).subrange(0, i as int),
        decreases texts.len() - i,
    {
        add_part(parts, raw(texts[i]));
        proof {
            assert(texts.deep_view()[i as int] == texts[i as int]@);
            assert(before + lits(texts.deep_view()).subrange(0, i + 1) =~= (before + lits(
                texts.deep_view(),
            ).subrange(0, i as int)).push(Pattern::Raw(texts[i as int]@)));
        }
        i += 1;
    }
    assert(lits(texts.deep_view()).subrange(0, texts.len() as int) =~= lits(texts.deep_view()));
}

/// Builds the matcher of a delimited run.
fn build_delimited(open: Vec<&str>, stop: &str, close: Vec<&str>) -> (r: AnySeq<Probe>)
    ensures
        shape(r) == delimited(open.deep_view(), stop@, close.deep_view()),
{
    let mut parts = no_parts();
    add_literals(&mut parts, &open);
    add_part(&mut parts, repeated(not_text(stop)));
    add_literals(&mut parts, &close);
    assert(shapes(parts) =~= lits(open.deep_view()).push(many(other_than(stop@))) + lits(
        close.deep_view(),
    ));
    in_turn(parts)
}

/// Builds the matcher of an expression followed by an operator.
fn build_postfix(op: &str) -> (r: AnySeq<Probe>)
    ensures
        shape(r) == postfix(op@),
{
    let mut parts = no_parts();
    add_part(&mut parts, with_tag("expr"));
    add_part(&mut parts, raw(op));
    assert(shapes(parts) =~= seq![tagged("expr"@), Pattern::Raw(op@)]);
    in_turn(parts)
}

/// Builds the matcher of expressions joined by an operator.
fn build_chain(op: &str) -> (r: AnySeq<Probe>)
    ensures
        shape(r) == chain(op@),
{
    let mut parts = no_parts();
    add_part(&mut parts, with_tag("expr"));
    add_part(&mut parts, raw(op));
    add_part(&mut parts, repeated(build_postfix(op)));
    add_part(&mut parts, with_tag("expr"));
    assert(shapes(parts) =~= seq![
        tagged("expr"@),
        Pattern::Raw(op@),
        many(postfix(op@)),
        tagged("expr"@),
    ]);
    in_turn(parts)
}

/// Builds the matcher of a rule declaration that names tags.
fn build_declared(op: &str) -> (r: AnySeq<Probe>)
    ensures
        shape(r) == declared(op@),
{
    let mut pair = no_parts();
    add_part(&mut pair, with_tag("word"));
    add_part(&mut pair, raw(","));
    assert(shapes(pair) =~= seq![tagged("word"@), Pattern::Raw(","@)]);
    let mut names = no_parts();
    add_part(&mut names, repeated(in_turn(pair)));
    add_part(&mut names, with_tag("word"));
    add_part(&mut names, raw(";"));
    assert(shapes(names) =~= seq![
        many(Pattern::Multiple(seq![tagged("word"@), Pattern::Raw(","@)])),
        tagged("word"@),
        Pattern::Raw(";"@),
    ]);
    let ghost list = Pattern::Multiple(shapes(names));
    let mut parts = no_parts();
    add_part(&mut parts, with_tag("expr"));
    add_part(&mut parts, raw(op));
    add_part(&mut parts, in_turn(names));
    assert(shapes(parts) =~= seq![tagged("expr"@), Pattern::Raw(op@), list]);
    in_turn(parts)
}

/// Builds the concatenation of three matchers.
fn build_three(a: AnySeq<Probe>, b: AnySeq<Probe>, c: AnySeq<Probe>) -> (r: AnySeq<Probe>)
    ensures
        shape(r) == three(shape(a), shape(b), shape(c)),
{
    let mut parts = no_parts();
    add_part(&mut parts, a);
    add_part(&mut parts, b);
    add_part(&mut parts, c);
    assert(shapes(parts) =~= seq![shape(a), shape(b), shape(c)]);
    in_turn(parts)
}

/// The characters that a word of the rule language is made of.
pub open spec fn word_chars() -> Seq<char> {
    "abcdefghijklmnopqrstuvwxyzABCDEFGHIJKLMNOPQRSTUVWXYZ0123456789_-"@
}

/// One or more characters of a word.
pub open spec fn word_shape() -> Shape {
    Pattern::Multiple(
        seq![Pattern::Choose(letters(word_chars())), many(Pattern::Choose(letters(word_chars())))],
    )
}

/// Two dots between two tokens that are not dots.
pub open spec fn range_shape() -> Shape {
    Pattern::Multiple(
        seq![other_than("."@), Pattern::Raw("."@), Pattern::Raw("."@), other_than("."@)],
    )
}

/// The rule that rewrites every match of the pattern in one sweep.
pub open spec fn sweep(p: Shape, action: ActionView<Tags>) -> RuleView {
    RuleView::Once(Box::new(RuleView::Leaf(p, action)))
}

/// The lexical rules, each one sweep: quoted literals, block comments, line
/// comments, quote blocks, ranges and words are merged or removed, then
/// white space is removed.
pub open spec fn lexical_rules() -> Seq<RuleView> {
    seq![
        sweep(delimited(seq!["'"@], "'"@, seq!["'"@]), ActionView::Merge(seq!["raw"@, "expr"@])),
        sweep(delimited(seq!["#"@, "#"@], "#"@, seq!["#"@, "#"@]), ActionView::Delete),
        sweep(delimited(seq!["#"@], "\n"@, seq!["\n"@]), ActionView::Delete),
        sweep(
            delimited(seq!["{"@, "."@], "."@, seq!["."@, "}"@]),
            ActionView::Merge(seq!["quote"@, "expr"@]),
        ),
        sweep(range_shape(), ActionView::Merge(seq!["range"@, "expr"@])),
        sweep(word_shape(), ActionView::Merge(seq!["word"@, "expr"@])),
        sweep(Pattern::First(ProbeView::Whitespace), ActionView::Delete),
    ]
}

/// The group that reduces operator sugar to a fixed point, in this order of
/// priority: parentheses, `?`, `*`, `+`, `|`, `&`.
pub open spec fn sugar_rules() -> RuleView {
    RuleView::Branch(
        seq![
            RuleView::Leaf(
                three(Pattern::Raw("("@), tagged("expr"@), Pattern::Raw(")"@)),
                ActionView::Wrap(seq!["parens"@, "expr"@]),
            ),
            RuleView::Leaf(postfix("?"@), ActionView::Wrap(seq!["opt"@, "expr"@])),
            RuleView::Leaf(postfix("*"@), ActionView::Wrap(seq!["repeat"@, "expr"@])),
            RuleView::Leaf(postfix("+"@), ActionView::Wrap(seq!["one_or_more"@, "expr"@])),
            RuleView::Leaf(chain("|"@), ActionView::Wrap(seq!["choose"@, "expr"@])),
            RuleView::Leaf(chain("&"@), ActionView::Wrap(seq!["mult"@, "expr"@])),
        ],
    )
}

/// The group that recognizes rule declarations to a fixed point: wrap
/// rules, merge rules, delete rules, the run-once marker and rule groups.
pub open spec fn declaration_rules() -> RuleView {
    RuleView::Branch(
        seq![
            sweep(
                declared(":"@),
                ActionView::Wrap(seq!["rep_leaf"@, "rep_deep"@, "rep"@, "no_once"@]),
            ),
            sweep(
                declared("."@),
                ActionView::Wrap(seq!["rep_leaf"@, "rep_shallow"@, "rep"@, "no_once"@]),
            ),
            sweep(
                three(tagged("expr"@), Pattern::Raw("~"@), Pattern::Raw(";"@)),
                ActionView::Wrap(seq!["rep_leaf"@, "rep_remove"@, "rep"@, "no_once"@]),
            ),
            sweep(
                Pattern::Multiple(seq![Pattern::Raw("%"@), tagged("rep"@)]),
                ActionView::Wrap(seq!["once"@, "rep"@]),
            ),
            sweep(
                three(Pattern::Raw("{"@), many(tagged("no_once"@)), Pattern::Raw("}"@)),
                ActionView::Wrap(seq!["rep_branch"@, "rep"@]),
            ),
        ],
    )
}

/// The whole rule set: the lexical rules, then the two groups.
pub open spec fn bootstrap_rules() -> Seq<RuleView> {
    lexical_rules().push(sugar_rules()).push(declaration_rules())
}

/// The label set with the given tags.
fn owned_tags(names: Vec<&str>) -> (r: Vec<String>)
    ensures
        r.deep_view() == names.deep_view(),
{
    let mut out: Vec<String> = Vec::new();
    let mut i: usize = 0;
    while i < names.len()
        invariant
            i <= names.len(),
            out.len() == i,
            forall|k: int| 0 <= k < i ==> (#[trigger] out[k])@ == names[k]@,
        decreases names.len() - i,
    {
        out.push(names[i].to_owned());
        i += 1;
    }
    assert(out.deep_view() =~= names.deep_view());
    out
}

/// The merge action with the given tags.
fn merge(names: Vec<&str>) -> (r: AnyTransform<Vec<String>>)
    ensures
        action_of(r) == ActionView::Merge(names.deep_view()),
{
    AnyTransform::Shallow(ShallowTransform { data: owned_tags(names) })
}

/// The wrap action with the given tags.
fn wrap(names: Vec<&str>) -> (r: AnyTransform<Vec<String>>)
    ensures
        action_of(r) == ActionView::Wrap(names.deep_view()),
{
    AnyTransform::Deep(DeepTransform { data: owned_tags(names) })
}

/// The delete action.
fn delete() -> (r: AnyTransform<Vec<String>>)
    ensures
        action_of(r) == ActionView::<Tags>::Delete,
{
    AnyTransform::Remove(RemoveTransform {  })
}

/// The rule that rewrites its first match.
fn first_match_rule(seq: AnySeq<Probe>, action: AnyTransform<Vec<String>>) -> (r: RepTree)
    ensures
        r@ == RuleView::Leaf(shape(seq), action_of(action)),
{
    RepTree::Leaf(seq, action)
}

/// The rule that rewrites every match in one sweep.
fn sweep_rule(seq: AnySeq<Probe>, action: AnyTransform<Vec<String>>) -> (r: RepTree)
    ensures
        r@ == sweep(shape(seq), action_of(action)),
{
    RepTree::Once(Box::new(first_match_rule(seq, action)))
}

/// The group of the given rule trees.
fn group(children: Vec<RepTree>) -> (r: RepTree)
    ensures
        r@ == RuleView::Branch(rules(children)),
{
    RepTree::Branch(children)
}

/// An empty list of rule trees.
fn no_rules() -> (r: Vec<RepTree>)
    ensures
        rules(r) == Seq::<RuleView>::empty(),
{
    let r: Vec<RepTree> = Vec::new();
    proof {
        lemma_rules(r);
        assert(rules(r) =~= Seq::<RuleView>::empty());
    }
    r
}

/// Adds a rule tree to the end of a list.
fn add_rule(list: &mut Vec<RepTree>, rule: RepTree)
    ensures
        rules(*final(list)) == rules(*old(list)).push(rule@),
{
    let ghost before = *list;
    list.push(rule);
    proof {
        lemma_rules_push(before, *list, rule);
    }
}

/// Builds the matcher of a word.
fn build_word() -> (r: AnySeq<Probe>)
    ensures
        shape(r) == word_shape(),
{
    let alphabet = "abcdefghijklmnopqrstuvwxyzABCDEFGHIJKLMNOPQRSTUVWXYZ0123456789_-";
    let one = ChooseSeq::from_str(alphabet);
    let more = ChooseSeq::from_str(alphabet);
    proof {
        lemma_patterns::<Vec<String>, Probe>(one.options);
        lemma_patterns::<Vec<String>, Probe>(more.options);
        assert(shapes(one.options) =~= letters(word_chars()));
        assert(shapes(more.options) =~= letters(word_chars()));
    }
    let mut parts = no_parts();
    add_part(&mut parts, AnySeq::Choose(one));
    add_part(&mut parts, repeated(AnySeq::Choose(more)));
    assert(shapes(parts) =~= seq![
        Pattern::Choose(letters(word_chars())),
        many(Pattern::Choose(letters(word_chars()))),
    ]);
    in_turn(parts)
}

/// Builds the matcher of a range.
fn build_range() -> (r: AnySeq<Probe>)
    ensures
        shape(r) == range_shape(),
{
    let mut parts = no_parts();
    add_part(&mut parts, not_text("."));
    add_part(&mut parts, raw("."));
    add_part(&mut parts, raw("."));
    add_part(&mut parts, not_text("."));
    assert(shapes(parts) =~= seq![
        other_than("."@),
        Pattern::Raw("."@),
        Pattern::Raw("."@),
        other_than("."@),
    ]);
    in_turn(parts)
}

/// Builds the lexical rules.
fn build_lexical() -> (r: Vec<RepTree>)
    ensures
        rules(r) == lexical_rules(),
{
    let mut list = no_rules();
    let quote = vec!["'"];
    let hashes = vec!["#", "#"];
    let hash = vec!["#"];
    let line_end = vec!["\n"];
    let block_open = vec!["{", "."];
    let block_close = vec![".", "}"];
    let raw_tags = vec!["raw", "expr"];
    let quote_tags = vec!["quote", "expr"];
    let range_tags = vec!["range", "expr"];
    let word_tags = vec!["word", "expr"];
    proof {
        assert(quote.deep_view() =~= seq!["'"@]);
        assert(hashes.deep_view() =~= seq!["#"@, "#"@]);
        assert(hash.deep_view() =~= seq!["#"@]);
        assert(line_end.deep_view() =~= seq!["\n"@]);
        assert(block_open.deep_view() =~= seq!["{"@, "."@]);
        assert(block_close.deep_view() =~= seq!["."@, "}"@]);
        assert(raw_tags.deep_view() =~= seq!["raw"@, "expr"@]);
        assert(quote_tags.deep_view() =~= seq!["quote"@, "expr"@]);
        assert(range_tags.deep_view() =~= seq!["range"@, "expr"@]);
        assert(word_tags.deep_view() =~= seq!["word"@, "expr"@]);
    }
    add_rule(
        &mut list,
        sweep_rule(build_delimited(quote.clone(), "'", quote), merge(raw_tags)),
    );
    add_rule(&mut list, sweep_rule(build_delimited(hashes.clone(), "#", hashes), delete()));
    add_rule(&mut list, sweep_rule(build_delimited(hash, "\n", line_end), delete()));
    add_rule(
        &mut list,
        sweep_rule(build_delimited(block_open, ".", block_close), merge(quote_tags)),
    );
    add_rule(&mut list, sweep_rule(build_range(), merge(range_tags)));
    add_rule(&mut list, sweep_rule(build_word(), merge(word_tags)));
    add_rule(
        &mut list,
        sweep_rule(AnySeq::First(FirstTokenSeq::new(Probe::Whitespace)), delete()),
    );
    assert(rules(list) =~= lexical_rules());
    list
}

/// Builds the group that reduces operator sugar.
fn build_sugar() -> (r: RepTree)
    ensures
        r@ == sugar_rules(),
{
    let mut list = no_rules();
    let parens = vec!["parens", "expr"];
    let opt = vec!["opt", "expr"];
    let repeat = vec!["repeat", "expr"];
    let one_or_more = vec!["one_or_more", "expr"];
    let choose = vec!["choose", "expr"];
    let mult = vec!["mult", "expr"];
    proof {
        assert(parens.deep_view() =~= seq!["parens"@, "expr"@]);
        assert(opt.deep_view() =~= seq!["opt"@, "expr"@]);
        assert(repeat.deep_view() =~= seq!["repeat"@, "expr"@]);
        assert(one_or_more.deep_view() =~= seq!["one_or_more"@, "expr"@]);
        assert(choose.deep_view() =~= seq!["choose"@, "expr"@]);
        assert(mult.deep_view() =~= seq!["mult"@, "expr"@]);
    }
    add_rule(
        &mut list,
        first_match_rule(build_three(raw("("), with_tag("expr"), raw(")")), wrap(parens)),
    );
    add_rule(&mut list, first_match_rule(build_postfix("?"), wrap(opt)));
    add_rule(&mut list, first_match_rule(build_postfix("*"), wrap(repeat)));
    add_rule(&mut list, first_match_rule(build_postfix("+"), wrap(one_or_more)));
    add_rule(&mut list, first_match_rule(build_chain("|"), wrap(choose)));
    add_rule(&mut list, first_match_rule(build_chain("&"), wrap(mult)));
    assert(rules(list) =~= sugar_rules()->Branch_0);
    group(list)
}

/// Builds the group that recognizes rule declarations.
fn build_declarations() -> (r: RepTree)
    ensures
        r@ == declaration_rules(),
{
    let mut list = no_rules();
    let deep = vec!["rep_leaf", "rep_deep", "rep", "no_once"];
    let shallow = vec!["rep_leaf", "rep_shallow", "rep", "no_once"];
    let remove = vec!["rep_leaf", "rep_remove", "rep", "no_once"];
    let once = vec!["once", "rep"];
    let branch = vec!["rep_branch", "rep"];
    proof {
        assert(deep.deep_view() =~= seq!["rep_leaf"@, "rep_deep"@, "rep"@, "no_once"@]);
        assert(shallow.deep_view() =~= seq!["rep_leaf"@, "rep_shallow"@, "rep"@, "no_once"@]);
        assert(remove.deep_view() =~= seq!["rep_leaf"@, "rep_remove"@, "rep"@, "no_once"@]);
        assert(once.deep_view() =~= seq!["once"@, "rep"@]);
        assert(branch.deep_view() =~= seq!["rep_branch"@, "rep"@]);
    }
    let mut marked = no_parts();
    add_part(&mut marked, raw("%"));
    add_part(&mut marked, with_tag("rep"));
    assert(shapes(marked) =~= seq![Pattern::Raw("%"@), tagged("rep"@)]);
    add_rule(&mut list, sweep_rule(build_declared(":"), wrap(deep)));
    add_rule(&mut list, sweep_rule(build_declared("."), wrap(shallow)));
    add_rule(
        &mut list,
        sweep_rule(build_three(with_tag("expr"), raw("~"), raw(";")), wrap(remove)),
    );
    add_rule(&mut list, sweep_rule(in_turn(marked), wrap(once)));
    add_rule(
        &mut list,
        sweep_rule(build_three(raw("{"), repeated(with_tag("no_once")), raw("}")), wrap(branch)),
    );
    assert(rules(list) =~= declaration_rules()->Branch_0);
    group(list)
}

/// The rule set that tokenizes and tags the source of the rule language.
pub fn bootstrap() -> (r: SeqProg)
    ensures
        rules(r.reps) == bootstrap_rules(),
{
    let mut reps = build_lexical();
    add_rule(&mut reps, build_sugar());
    add_rule(&mut reps, build_declarations());
    SeqProg { reps }
}

} // verus!
