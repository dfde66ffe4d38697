//! Text forms for inspection: expressions, rule trees and programs written
//! out, and token forests drawn with their tags.
use crate::chars::{decimal, push_decimal};
use crate::meta::{DefinedSeq, RepTree, SeqProg, Tags};
use crate::token::{Token, TokenView};
use vstd::prelude::*;

verus! {

/// An expression written out: `raw(..)` around the text of a literal, the
/// two bounds of a range in decimal with `..` between them, `choose(..)` and
/// `mult(..)` around their parts with a comma behind each, `opt(..)` and
/// `repeat(..)` around their part, `has(..)` around a tag.
pub open spec fn expr_text(d: DefinedSeq) -> Seq<char>
    decreases d, 0nat,
{
    match d {
        DefinedSeq::Raw(text) => "raw("@ + text@ + ")"@,
        DefinedSeq::Range(lo, hi) => decimal(lo as nat) + ".."@ + decimal(hi as nat),
        DefinedSeq::Choose(options) => "choose("@ + list_text(options, options.len() as nat) + ")"@,
        DefinedSeq::Optional(inner) => "opt("@ + expr_text(*inner) + ")"@,
        DefinedSeq::Repeat(inner) => "repeat("@ + expr_text(*inner) + ")"@,
        DefinedSeq::Multiple(parts) => "mult("@ + list_text(parts, parts.len() as nat) + ")"@,
        DefinedSeq::HasTag(tag) => "has("@ + tag@ + ")"@,
    }
}

/// The first `n` expressions of a list written out, a comma behind each.
pub open spec fn list_text(list: Vec<DefinedSeq>, n: nat) -> Seq<char>
    decreases list, n,
{
    if n == 0 || n > list.len() {
        Seq::empty()
    } else {
        list_text(list, (n - 1) as nat) + expr_text(list[n - 1]) + ","@
    }
}

/// A rule tree written out: `sequence` for a rule, the trees of a group one
/// after another, `%` before a tree that runs in a single pass.
pub open spec fn tree_text(tree: RepTree) -> Seq<char>
    decreases tree, 0nat,
{
    match tree {
        RepTree::Leaf(seq, action) => "sequence"@,
        RepTree::Branch(children) => trees_text(children, children.len() as nat),
        RepTree::Once(inner) => "%"@ + tree_text(*inner),
    }
}

/// The first `n` rule trees of a list written out, one after another.
pub open spec fn trees_text(trees: Vec<RepTree>, n: nat) -> Seq<char>
    decreases trees, n,
{
    if n == 0 || n > trees.len() {
        Seq::empty()
    } else {
        trees_text(trees, (n - 1) as nat) + tree_text(trees[n - 1])
    }
}

impl DefinedSeq {
    /// The expression written out.
    pub fn to_text(&self) -> (r: String)
        ensures
            r@ == expr_text(*self),
        decreases self, 1nat,
    {
        match self {
            DefinedSeq::Raw(text) => enclosed("raw(", text.as_str()),
            DefinedSeq::Range(lo, hi) => {
                let mut out = String::new();
                push_decimal(&mut out, *lo);
                out.append("..");
                push_decimal(&mut out, *hi);
                assert(out@ =~= expr_text(*self));
                out
            },
            DefinedSeq::Choose(options) => enclosed("choose(", list_to_text(options).as_str()),
            DefinedSeq::Optional(inner) => enclosed("opt(", inner.to_text().as_str()),
            DefinedSeq::Repeat(inner) => enclosed("repeat(", inner.to_text().as_str()),
            DefinedSeq::Multiple(parts) => enclosed("mult(", list_to_text(parts).as_str()),
            DefinedSeq::HasTag(tag) => enclosed("has(", tag.as_str()),
        }
    }
}

/// A text between an opening text and a closing bracket.
fn enclosed(open: &str, inner: &str) -> (r: String)
    ensures
        r@ == open@ + inner@ + ")"@,
{
    let mut out = String::from_str(open);
    out.append(inner);
    out.append(")");
    out
}

/// The expressions of a list written out, a comma behind each.
fn list_to_text(list: &Vec<DefinedSeq>) -> (r: String)
    ensures
        r@ == list_text(*list, list.len() as nat),
    decreases list, 0nat,
{
    let mut out = String::new();
    let mut i: usize = 0;
    while i < list.len()
        invariant
            i <= list.len(),
            out@ == list_text(*list, i as nat),
        decreases list.len() - i,
    {
        let part = list[i].to_text();
        out.append(part.as_str());
        out.append(",");
        i += 1;
    }
    out
}

impl RepTree {
    /// The rule tree written out.
    pub fn to_text(&self) -> (r: String)
        ensures
            r@ == tree_text(*self),
        decreases self, 1nat,
    {
        match self {
            RepTree::Leaf(_, _) => String::from_str("sequence"),
            RepTree::Branch(children) => trees_to_text(children),
            RepTree::Once(inner) => {
                let mut out = String::from_str("%");
                out.append(inner.to_text().as_str());
                out
            },
        }
    }
}

/// The rule trees of a list written out, one after another.
fn trees_to_text(trees: &Vec<RepTree>) -> (r: String)
    ensures
        r@ == trees_text(*trees, trees.len() as nat),
    decreases trees, 0nat,
{
    let mut out = String::new();
    let mut i: usize = 0;
    while i < trees.len()
        invariant
            i <= trees.len(),
            out@ == trees_text(*trees, i as nat),
        decreases trees.len() - i,
    {
        let part = trees[i].to_text();
        out.append(part.as_str());
        i += 1;
    }
    out
}

impl SeqProg {
    /// The program written out: its rule trees one after another.
    pub fn to_text(&self) -> (r: String)
        ensures
            r@ == trees_text(self.reps, self.reps.len() as nat),
    {
        trees_to_text(&self.reps)
    }
}

/// The first `n` tags of a label set, a blank behind each.
pub open spec fn tags_text(tags: Tags, n: nat) -> Seq<char>
    decreases n,
{
    if n == 0 || n > tags.len() {
        Seq::empty()
    } else {
        tags_text(tags, (n - 1) as nat) + tags[n - 1] + " "@
    }
}

/// The first `n` tokens of a list, each drawn from no indentation and
/// followed by a line that names its tags.
pub open spec fn tagged_graphs(tokens: Seq<TokenView<Tags>>, n: nat) -> Seq<char>
    decreases n,
{
    if n == 0 || n > tokens.len() {
        Seq::empty()
    } else {
        tagged_graphs(tokens, (n - 1) as nat) + tokens[n - 1].graph(0) + "Tags: "@ + tags_text(
            tokens[n - 1].labels,
            tokens[n - 1].labels.len(),
        ) + "\n"@
    }
}

/// Draws a token list for inspection: each token as lines of text, followed
/// by a line that names its tags.
pub fn graph_with_tags(tokens: &Vec<Token<'_, Vec<String>>>) -> (r: String)
    requires
        forall|i: int| 0 <= i < tokens.len() ==> (#[trigger] tokens.deep_view()[i]).wf(),
    ensures
        r@ == tagged_graphs(tokens.deep_view(), tokens.len() as nat),
{
    let mut out = String::new();
    let mut i: usize = 0;
    while i < tokens.len()
        invariant
            i <= tokens.len(),
            out@ == tagged_graphs(tokens.deep_view(), i as nat),
            forall|k: int| 0 <= k < tokens.len() ==> (#[trigger] tokens.deep_view()[k]).wf(),
        decreases tokens.len() - i,
    {
        let tok = &tokens[i];
        let ghost node = tokens.deep_view()[i as int];
        assert(node == tok.deep_view());
        assert(node.labels == tok.data.deep_view());
        let ghost before = out@;
        out.append(tok.graph().as_str());
        out.append("Tags: ");
        let ghost head = out@;
        let mut j: usize = 0;
        while j < tok.data.len()
            invariant
                j <= tok.data.len(),
                node.labels == tok.data.deep_view(),
                out@ == head + tags_text(node.labels, j as nat),
            decreases tok.data.len() - j,
        {
            assert(node.labels[j as int] == tok.data[j as int]@);
            out.append(tok.data[j].as_str());
            out.append(" ");
            j += 1;
            assert(out@ =~= head + tags_text(node.labels, j as nat));
        }
        out.append("\n");
        i += 1;
        assert(out@ =~= tagged_graphs(tokens.deep_view(), i as nat));
    }
    out
}

} // verus!
