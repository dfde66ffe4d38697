//! The token tree: leaves are spans of the source text, branches hold an
//! ordered run of children, and every node carries labels.
use crate::chars::same_text;
use std::ops::Range;
use vstd::prelude::*;

verus! {

/// The mathematical model of a token: the text it is cut from, its shape and
/// the model of its labels.
pub struct TokenView<L> {
    pub root: Seq<char>,
    pub kind: KindView<L>,
    pub labels: L,
}

/// The shape of a token's model. A leaf is the half-open span `start..end` of
/// character positions in the root text.
pub enum KindView<L> {
    Leaf { start: int, end: int },
    Branch { children: Seq<TokenView<L>> },
}

impl<L> TokenView<L> {
    /// Where the token begins in the root text: a leaf's own start, a
    /// branch's first child's start.
    pub open spec fn start(self) -> int
        decreases self,
    {
        match self.kind {
            KindView::Leaf { start, end } => start,
            KindView::Branch { children } => if children.len() > 0 {
                children[0].start()
            } else {
                0
            },
        }
    }

    /// Where the token ends in the root text: a leaf's own end, a branch's
    /// last child's end.
    pub open spec fn end(self) -> int
        decreases self,
    {
        match self.kind {
            KindView::Leaf { start, end } => end,
            KindView::Branch { children } => if children.len() > 0 {
                children[children.len() - 1].end()
            } else {
                0
            },
        }
    }

    /// A leaf's span lies inside the root text. A branch has a child, and its
    /// children are themselves well formed, cut from the same text and in
    /// text order without overlap.
    pub open spec fn wf(self) -> bool
        decreases self,
    {
        match self.kind {
            KindView::Leaf { start, end } => 0 <= start <= end <= self.root.len(),
            KindView::Branch { children } => {
                &&& children.len() > 0
                &&& forall|i: int|
                    0 <= i < children.len() ==> (#[trigger] children[i]).wf() && children[i].root
                        == self.root
                &&& forall|i: int, j: int|
                    #![trigger children[i], children[j]]
                    0 <= i < j < children.len() ==> children[i].end() <= children[j].start()
            },
        }
    }

    /// The text that the token denotes.
    pub open spec fn content(self) -> Seq<char> {
        self.root.subrange(self.start(), self.end())
    }
}

/// A run of `depth` tab characters.
pub open spec fn tabs(depth: nat) -> Seq<char>
    decreases depth,
{
    if depth == 0 {
        Seq::empty()
    } else {
        tabs((depth - 1) as nat).push('\t')
    }
}

impl<L> TokenView<L> {
    /// The token drawn as lines of text at an indentation of `depth` tabs: a
    /// leaf is a line with its content, a branch is a line with an opening
    /// brace, its children one level deeper, and a line with a closing brace.
    pub open spec fn graph(self, depth: nat) -> Seq<char>
        decreases self, 0nat,
    {
        match self.kind {
            KindView::Leaf { start, end } => tabs(depth) + self.content() + seq!['\n'],
            KindView::Branch { children } => tabs(depth) + seq!['{', '\n'] + graph_run(
                children,
                depth + 1,
                children.len(),
            ) + tabs(depth) + seq!['}', '\n'],
        }
    }
}

/// The drawings of the first `n` tokens of a run, one after another.
pub open spec fn graph_run<L>(tokens: Seq<TokenView<L>>, depth: nat, n: nat) -> Seq<char>
    decreases tokens, n,
{
    if n == 0 || n > tokens.len() {
        Seq::empty()
    } else {
        graph_run(tokens, depth, (n - 1) as nat) + tokens[n - 1].graph(depth)
    }
}

/// The drawings of the first `n` tokens of a list from no indentation, a line
/// break put before each.
pub open spec fn graph_list<L>(tokens: Seq<TokenView<L>>, n: nat) -> Seq<char>
    decreases n,
{
    if n == 0 || n > tokens.len() {
        Seq::empty()
    } else {
        graph_list(tokens, (n - 1) as nat) + seq!['\n'] + tokens[n - 1].graph(0)
    }
}

/// The contents of the first `n` tokens of a list, one after another.
pub open spec fn contents<L>(tokens: Seq<TokenView<L>>, n: nat) -> Seq<char>
    decreases n,
{
    if n == 0 || n > tokens.len() {
        Seq::empty()
    } else {
        contents(tokens, (n - 1) as nat) + tokens[n - 1].content()
    }
}

/// A well-formed token's span lies inside its root text.
pub proof fn lemma_span_in_root<L>(t: TokenView<L>)
    requires
        t.wf(),
    ensures
        0 <= t.start() <= t.end() <= t.root.len(),
    decreases t,
{
    match t.kind {
        KindView::Leaf { start, end } => {},
        KindView::Branch { children } => {
            let last = children.len() - 1;
            lemma_span_in_root(children[0]);
            lemma_span_in_root(children[last]);
            if last > 0 {
                assert(children[0].end() <= children[last].start());
            }
        },
    }
}

/// A token list is well formed over a root text when every token is well
/// formed and cut from that text, and the tokens stand in text order without
/// overlap.
#[verifier::opaque]
pub open spec fn tokens_wf<L>(tokens: Seq<TokenView<L>>, root: Seq<char>) -> bool {
    &&& forall|i: int|
        0 <= i < tokens.len() ==> (#[trigger] tokens[i]).wf() && tokens[i].root == root
    &&& forall|i: int, j: int|
        #![trigger tokens[i], tokens[j]]
        0 <= i < j < tokens.len() ==> tokens[i].end() <= tokens[j].start()
}

/// Each token of a well-formed list is well formed and cut from the list's
/// root text.
pub proof fn lemma_member<L>(tokens: Seq<TokenView<L>>, root: Seq<char>, i: int)
    requires
        tokens_wf(tokens, root),
        0 <= i < tokens.len(),
    ensures
        tokens[i].wf(),
        tokens[i].root == root,
        0 <= tokens[i].start() <= tokens[i].end() <= root.len(),
        forall|j: int| i < j < tokens.len() ==> tokens[i].end() <= (#[trigger] tokens[j]).start(),
{
    reveal(tokens_wf);
    lemma_span_in_root(tokens[i]);
}

/// The empty list is well formed over any root text.
pub proof fn lemma_empty_wf<L>(tokens: Seq<TokenView<L>>, root: Seq<char>)
    requires
        tokens.len() == 0,
    ensures
        tokens_wf(tokens, root),
{
    reveal(tokens_wf);
}

/// A list of one well-formed token is well formed over the token's root text.
pub proof fn lemma_single_wf<L>(tokens: Seq<TokenView<L>>)
    requires
        tokens.len() == 1,
        tokens[0].wf(),
    ensures
        tokens_wf(tokens, tokens[0].root),
{
    reveal(tokens_wf);
}

/// A branch over a non-empty well-formed list is well formed.
pub proof fn lemma_branch_wf<L>(t: TokenView<L>)
    requires
        t.kind is Branch,
        t.kind->children.len() > 0,
        tokens_wf(t.kind->children, t.root),
    ensures
        t.wf(),
        t.start() == t.kind->children[0].start(),
        t.end() == t.kind->children[t.kind->children.len() - 1].end(),
{
    reveal(tokens_wf);
}

/// The type of an error in writing formatted text; this library never makes one.
#[verifier::external_type_specification]
#[verifier::external_body]
pub struct ExFmtError(std::fmt::Error);

/// Appends `depth` tab characters to `buf`.
fn push_tabs(depth: usize, buf: &mut String)
    ensures
        final(buf)@ == old(buf)@ + tabs(depth as nat),
{
    let ghost before = buf@;
    let mut i: usize = 0;
    assert(buf@ =~= before + tabs(0));
    while i < depth
        invariant
            i <= depth,
            buf@ == before + tabs(i as nat),
        decreases depth - i,
    {
        proof {
            reveal_strlit("\t");
            assert("\t"@ =~= seq!['\t']);
        }
        buf.append("\t");
        i += 1;
        assert(buf@ =~= before + tabs(i as nat));
    }
}

/// A node of the token tree, cut from `root` and labelled with `data`.
#[derive(Debug)]
pub struct Token<'a, T> {
    pub root: &'a str,
    pub t_type: TokenType<'a, T>,
    pub data: T,
}

/// A token is a leaf, the span of character positions it covers in the root
/// text, or a branch over an ordered run of children.
#[derive(Debug)]
pub enum TokenType<'a, T> {
    Leaf(Range<usize>),
    Branch(Vec<Token<'a, T>>),
}

impl<'a, T: DeepView> DeepView for Token<'a, T> {
    type V = TokenView<T::V>;

    open spec fn deep_view(&self) -> TokenView<T::V> {
        token_model(*self)
    }
}

/// The model of a token: its root text as characters, its span or the models
/// of its children, and the model of its labels.
pub open spec fn token_model<'a, T: DeepView>(t: Token<'a, T>) -> TokenView<T::V>
    decreases t, 0nat,
{
    TokenView {
        root: t.root@,
        kind: match t.t_type {
            TokenType::Leaf(r) => KindView::Leaf { start: r.start as int, end: r.end as int },
            TokenType::Branch(children) => KindView::Branch {
                children: token_models(children, children.len() as nat),
            },
        },
        labels: t.data.deep_view(),
    }
}

/// The models of the first `n` tokens of a list, in order.
pub open spec fn token_models<'a, T: DeepView>(tokens: Vec<Token<'a, T>>, n: nat) -> Seq<
    TokenView<T::V>,
>
    decreases tokens, n,
{
    if n == 0 || n > tokens.len() {
        Seq::empty()
    } else {
        token_models(tokens, (n - 1) as nat).push(token_model(tokens[n - 1]))
    }
}

/// The models of a list's first `n` tokens are as many, each the model of the
/// token at its place.
pub proof fn lemma_token_models<'a, T: DeepView>(tokens: Vec<Token<'a, T>>, n: nat)
    requires
        n <= tokens.len(),
    ensures
        token_models(tokens, n).len() == n,
        forall|i: int| 0 <= i < n ==> (#[trigger] token_models(tokens, n)[i]) == tokens[i].deep_view(),
    decreases n,
{
    if n > 0 {
        lemma_token_models(tokens, (n - 1) as nat);
    }
}

/// The model of a branch holds the models of its children, in order.
pub proof fn lemma_branch_view<'a, T: DeepView>(t: &Token<'a, T>)
    requires
        t.t_type is Branch,
    ensures
        t.deep_view().kind is Branch,
        t.deep_view().kind->children == t.t_type->Branch_0.deep_view(),
{
    let children = t.t_type->Branch_0;
    lemma_token_models(children, children.len() as nat);
    assert(t.deep_view().kind->children =~= children.deep_view());
}

impl<'a, T: DeepView> Token<'a, T> {
    /// Cuts a text into one leaf per character, in order. The leaf at
    /// position `i` spans `i..i + 1` and is labelled with what `data` gives
    /// for the character there and its position.
    pub fn token_vec_from_str<F: Fn(char, usize) -> T>(from: &'a str, data: F) -> (r: Vec<
        Token<'a, T>,
    >)
        requires
            forall|i: usize| i < from@.len() ==> data.requires((#[trigger] from@[i as int], i)),
        ensures
            r.len() == from@.len(),
            forall|i: int|
                0 <= i < r.len() ==> {
                    &&& (#[trigger] r[i]).root == from
                    &&& r[i].t_type == TokenType::<'a, T>::Leaf(i as usize..(i + 1) as usize)
                    &&& data.ensures((from@[i], i as usize), r[i].data)
                },
            tokens_wf(r.deep_view(), from@),
    {
        let n = from.unicode_len();
        let mut tokens: Vec<Token<'a, T>> = Vec::new();
        let mut i: usize = 0;
        while i < n
            invariant
                n == from@.len(),
                i <= n,
                tokens.len() == i,
                forall|k: usize| k < from@.len() ==> data.requires((#[trigger] from@[k as int], k)),
                forall|k: int|
                    0 <= k < i ==> {
                        &&& (#[trigger] tokens[k]).root == from
                        &&& tokens[k].t_type == TokenType::<'a, T>::Leaf(
                            k as usize..(k + 1) as usize,
                        )
                        &&& data.ensures((from@[k], k as usize), tokens[k].data)
                    },
            decreases n - i,
        {
            let c = from.get_char(i);
            let labels = data(c, i);
            tokens.push(Token { root: from, t_type: TokenType::Leaf(i..i + 1), data: labels });
            i += 1;
        }
        proof {
            reveal(tokens_wf);
            let views = tokens.deep_view();
            assert forall|k: int| 0 <= k < views.len() implies {
                &&& (#[trigger] views[k]).wf()
                &&& views[k].root == from@
                &&& views[k].start() == k
                &&& views[k].end() == k + 1
            } by {
                assert(views[k] == tokens[k].deep_view());
            }
        }
        tokens
    }

    /// Whether the token is well formed: a test for callers that build
    /// tokens by hand.
    pub fn is_well_formed(&self) -> (r: bool)
        ensures
            r == self.deep_view().wf(),
        decreases self,
    {
        match &self.t_type {
            TokenType::Leaf(range) => range.start <= range.end && range.end
                <= self.root.unicode_len(),
            TokenType::Branch(children) => {
                proof {
                    lemma_branch_view(self);
                }
                if children.len() == 0 {
                    return false;
                }
                let ghost kids = children.deep_view();
                let mut last_end: usize = 0;
                let mut i: usize = 0;
                while i < children.len()
                    invariant
                        i <= children.len(),
                        kids == children.deep_view(),
                        kids.len() == children.len(),
                        self.deep_view().kind == (KindView::Branch { children: kids }),
                        self.deep_view().root == self.root@,
                        forall|k: int|
                            0 <= k < children.len() ==> decreases_to!(self => #[trigger] children[k]),
                        forall|k: int|
                            0 <= k < i ==> (#[trigger] kids[k]).wf() && kids[k].root == self.root@,
                        i > 0 ==> last_end == kids[i - 1].end(),
                        forall|k: int, j: int|
                            #![trigger kids[k], kids[j]]
                            0 <= k < j < i ==> kids[k].end() <= kids[j].start(),
                    decreases children.len() - i,
                {
                    let child = &children[i];
                    assert(kids[i as int] == child.deep_view());
                    if !child.is_well_formed() || !same_text(child.root, self.root) {
                        return false;
                    }
                    let range = child.content_range();
                    if i > 0 && range.start < last_end {
                        assert(kids[i - 1].end() > kids[i as int].start());
                        return false;
                    }
                    proof {
                        if i > 0 {
                            lemma_span_in_root(kids[i - 1]);
                            assert forall|k: int| 0 <= k < i implies (#[trigger] kids[k]).end()
                                <= kids[i as int].start() by {
                                if k < i - 1 {
                                    assert(kids[k].end() <= kids[i - 1].start());
                                }
                            }
                        }
                    }
                    last_end = range.end;
                    i += 1;
                }
                true
            },
        }
    }

    /// The span of character positions that the token covers: a leaf's own
    /// span, and for a branch the span from its first child's start to its
    /// last child's end.
    pub fn content_range(&self) -> (r: Range<usize>)
        requires
            self.deep_view().wf(),
        ensures
            r.start == self.deep_view().start(),
            r.end == self.deep_view().end(),
        decreases self,
    {
        match &self.t_type {
            TokenType::Leaf(r) => r.start..r.end,
            TokenType::Branch(children) => {
                proof {
                    lemma_branch_view(self);
                    let kids = children.deep_view();
                    assert(kids[0] == children[0].deep_view());
                    assert(kids[kids.len() - 1] == children[children.len() - 1].deep_view());
                }
                let first = children[0].content_range();
                let last = children[children.len() - 1].content_range();
                first.start..last.end
            },
        }
    }

    /// The text that the token denotes: the root text cut at the token's span.
    pub fn content(&self) -> (r: &'a str)
        requires
            self.deep_view().wf(),
        ensures
            r@ == self.deep_view().content(),
    {
        let range = self.content_range();
        proof {
            lemma_span_in_root(self.deep_view());
        }
        self.root.substring_char(range.start, range.end)
    }

    /// The token drawn as lines of text, from no indentation.
    pub fn graph(&self) -> (r: String)
        requires
            self.deep_view().wf(),
        ensures
            r@ == self.deep_view().graph(0),
    {
        let mut to_ret = String::new();
        let _ = self.graph_depth(0, &mut to_ret);
        assert(to_ret@ =~= self.deep_view().graph(0));
        to_ret
    }

    /// The drawings of all tokens of a list, a line break put before each.
    pub fn graph_vec(tox: &Vec<Token<'a, T>>) -> (r: String)
        requires
            forall|i: int| 0 <= i < tox.len() ==> (#[trigger] tox.deep_view()[i]).wf(),
        ensures
            r@ == graph_list(tox.deep_view(), tox.len() as nat),
    {
        let mut to_ret = String::new();
        let mut i: usize = 0;
        while i < tox.len()
            invariant
                i <= tox.len(),
                to_ret@ == graph_list(tox.deep_view(), i as nat),
                forall|k: int| 0 <= k < tox.len() ==> (#[trigger] tox.deep_view()[k]).wf(),
            decreases tox.len() - i,
        {
            proof {
                reveal_strlit("\n");
                assert(tox.deep_view()[i as int] == tox[i as int].deep_view());
                assert("\n"@ =~= seq!['\n']);
            }
            to_ret.append("\n");
            let g = tox[i].graph();
            to_ret.append(g.as_str());
            i += 1;
        }
        to_ret
    }

    /// The contents of all tokens of a list, one after another.
    pub fn vec_content(tox: &Vec<Token<'a, T>>) -> (r: String)
        requires
            forall|i: int| 0 <= i < tox.len() ==> (#[trigger] tox.deep_view()[i]).wf(),
        ensures
            r@ == contents(tox.deep_view(), tox.len() as nat),
    {
        let mut to_ret = String::new();
        let mut i: usize = 0;
        while i < tox.len()
            invariant
                i <= tox.len(),
                to_ret@ == contents(tox.deep_view(), i as nat),
                forall|k: int| 0 <= k < tox.len() ==> (#[trigger] tox.deep_view()[k]).wf(),
            decreases tox.len() - i,
        {
            proof {
                assert(tox.deep_view()[i as int] == tox[i as int].deep_view());
            }
            to_ret.append(tox[i].content());
            i += 1;
        }
        to_ret
    }

    /// Appends to `buf` the token drawn at an indentation of `depth` tabs.
    /// Writing to a string cannot fail, so the result is always `Ok`.
    pub fn graph_depth(&self, depth: usize, buf: &mut String) -> (r: Result<(), std::fmt::Error>)
        requires
            self.deep_view().wf(),
        ensures
            r is Ok,
            final(buf)@ == old(buf)@ + self.deep_view().graph(depth as nat),
    {
        let mut indent = String::new();
        push_tabs(depth, &mut indent);
        assert(indent@ =~= tabs(depth as nat));
        self.draw(&indent, Ghost(depth as nat), buf);
        Ok(())
    }

    /// Appends to `buf` the token drawn behind the indentation `indent`,
    /// which is `level` tabs.
    fn draw(&self, indent: &String, level: Ghost<nat>, buf: &mut String)
        requires
            self.deep_view().wf(),
            indent@ == tabs(level@),
        ensures
            final(buf)@ == old(buf)@ + self.deep_view().graph(level@),
        decreases self,
    {
        let ghost before = buf@;
        buf.append(indent.as_str());
        match &self.t_type {
            TokenType::Branch(children) => {
                proof {
                    reveal_strlit("{\n");
                    reveal_strlit("}\n");
                    reveal_strlit("\t");
                    assert("{\n"@ =~= seq!['{', '\n']);
                    assert("}\n"@ =~= seq!['}', '\n']);
                    assert("\t"@ =~= seq!['\t']);
                    lemma_branch_view(self);
                }
                let ghost kids = children.deep_view();
                buf.append("{\n");
                let mut deeper = indent.clone();
                deeper.append("\t");
                assert(deeper@ =~= tabs(level@ + 1));
                let mut i: usize = 0;
                while i < children.len()
                    invariant
                        i <= children.len(),
                        deeper@ == tabs(level@ + 1),
                        forall|k: int|
                            0 <= k < children.len() ==> decreases_to!(self => #[trigger] children[k]),
                        kids == children.deep_view(),
                        forall|k: int| 0 <= k < kids.len() ==> (#[trigger] kids[k]).wf(),
                        buf@ == before + tabs(level@) + seq!['{', '\n'] + graph_run(
                            kids,
                            level@ + 1,
                            i as nat,
                        ),
                    decreases children.len() - i,
                {
                    proof {
                        assert(kids[i as int] == children[i as int].deep_view());
                    }
                    children[i].draw(&deeper, Ghost(level@ + 1), buf);
                    i += 1;
                    assert(buf@ =~= before + tabs(level@) + seq!['{', '\n'] + graph_run(
                        kids,
                        level@ + 1,
                        i as nat,
                    ));
                }
                buf.append(indent.as_str());
                buf.append("}\n");
                assert(buf@ =~= before + self.deep_view().graph(level@));
            },
            TokenType::Leaf(_) => {
                proof {
                    reveal_strlit("\n");
                    assert("\n"@ =~= seq!['\n']);
                }
                buf.append(self.content());
                buf.append("\n");
                assert(buf@ =~= before + self.deep_view().graph(level@));
            },
        }
    }
}

} // verus!
