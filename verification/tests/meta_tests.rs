use token_rewrite::meta::{
    char_to_token, create_program, eval_prog_from_text, eval_rep, eval_sequence, has_tag,
    has_tag_owned, prog_from_str, raw_range, tuck_tokens, DefinedSeq, Probe, RepTree, SeqProg,
};
use token_rewrite::sequence::{AnySeq, RawSeq, Sequence};
use token_rewrite::token::{Token, TokenType};
use token_rewrite::transform::{AnyTransform, DeepTransform, RemoveTransform, ShallowTransform};

type Tok<'a> = Token<'a, Vec<String>>;

fn tags(names: &[&str]) -> Vec<String> {
    names.iter().map(|n| n.to_string()).collect()
}

fn has(tok: &Tok, tag: &str) -> bool {
    tok.data.iter().any(|t| t == tag)
}

fn children<'b, 'a>(tok: &'b Tok<'a>) -> &'b Vec<Tok<'a>> {
    match &tok.t_type {
        TokenType::Branch(c) => c,
        TokenType::Leaf(_) => panic!("expected a branch, found the leaf {:?}", tok.content()),
    }
}

/// A forest as text: leaves as their content, branches in brackets, each
/// followed by its rule-given tags (all tags but the character's own).
fn show(tox: &[Tok]) -> String {
    let mut out = String::new();
    for t in tox {
        match &t.t_type {
            TokenType::Leaf(_) => out.push_str(&format!("{:?}", t.content())),
            TokenType::Branch(c) => out.push_str(&format!("[{}]", show(c))),
        }
        let named: Vec<&str> = t
            .data
            .iter()
            .map(|s| s.as_str())
            .filter(|s| s.len() > 1 && !(s.starts_with('u') && s[1..].chars().all(|c| c.is_ascii_digit())))
            .collect();
        if !named.is_empty() {
            out.push_str(&format!("<{}>", named.join(",")));
        }
        out.push(' ');
    }
    out.trim_end().to_string()
}

fn run(grammar: &str, text: &str) -> String {
    let tox = eval_prog_from_text(grammar, text).expect("the grammar compiles");
    let s = show(&tox);
    s
}

#[test]
fn char_to_token_gives_text_and_code_point() {
    assert_eq!(char_to_token('a'), tags(&["a", "u97"]));
    assert_eq!(char_to_token('0'), tags(&["0", "u48"]));
    assert_eq!(char_to_token('\u{e9}'), tags(&["\u{e9}", "u233"]));
    assert_eq!(char_to_token('\u{10348}'), tags(&["\u{10348}", "u66376"]));
}

#[test]
fn char_to_token_marks_white_space_and_control_codes() {
    assert_eq!(char_to_token(' '), tags(&[" ", "u32", "ws"]));
    assert_eq!(char_to_token('\n'), tags(&["\n", "u10", "ws"]));
    assert_eq!(char_to_token('\u{0}'), tags(&["\u{0}", "u0", "ws"]));
    assert_eq!(char_to_token('\u{7f}'), tags(&["\u{7f}", "u127", "ws"]));
    assert_eq!(char_to_token('\u{a0}'), tags(&["\u{a0}", "u160", "ws"]));
}

#[test]
fn tuck_tokens_tags_a_wrap_rule() {
    let tox = tuck_tokens("0..9+: number;");
    assert_eq!(
        show(&tox),
        "[[\"0..9\"<range,expr> \"+\"]<one_or_more,expr> \":\" \"number\"<word,expr> \";\"]<rep_leaf,rep_deep,rep,no_once>"
    );
}

#[test]
fn tuck_tokens_removes_comments_and_white_space() {
    let tox = tuck_tokens("# first\n  'a' ## in\nside ## ~ ;  # last\n");
    assert_eq!(
        show(&tox),
        "[\"'a'\"<raw,expr> \"~\" \";\"]<rep_leaf,rep_remove,rep,no_once>"
    );
}

#[test]
fn tuck_tokens_reduces_nested_sugar() {
    let tox = tuck_tokens("(a|b)*&c?");
    assert_eq!(
        show(&tox),
        "[[[\"(\" [\"a\"<word,expr> \"|\" \"b\"<word,expr>]<choose,expr> \")\"]<parens,expr> \"*\"]<repeat,expr> \"&\" [\"c\"<word,expr> \"?\"]<opt,expr>]<mult,expr>"
    );
}

#[test]
fn tuck_tokens_tags_groups_and_the_once_marker() {
    let tox = tuck_tokens("%{ a~; b. c, d; }");
    assert_eq!(
        show(&tox),
        "[\"%\" [\"{\" [\"a\"<word,expr> \"~\" \";\"]<rep_leaf,rep_remove,rep,no_once> [\"b\"<word,expr> \".\" \"c\"<word,expr> \",\" \"d\"<word,expr> \";\"]<rep_leaf,rep_shallow,rep,no_once> \"}\"]<rep_branch,rep>]<once,rep>"
    );
}

#[test]
fn tuck_tokens_of_empty_source_is_empty() {
    assert!(tuck_tokens("").is_empty());
    assert!(tuck_tokens("  \n ## gone ## ").is_empty());
}

#[test]
fn eval_simple_prog_empty_program() {
    assert_eq!(run("", "a"), "\"a\"");
}

#[test]
fn eval_simple_prog_sugared_raw_sequence() {
    assert_eq!(run("\n'a'. it_works;\n", "a"), "\"a\"<it_works>");
}

#[test]
fn eval_simple_prog_sugared_range_sequence() {
    assert_eq!(run("\na..c. it_works;\n", "abcd"), "\"a\"<it_works> \"b\" \"c\" \"d\"");
    assert_eq!(
        run("\n%a..c. it_works;\n", "abcd"),
        "\"a\"<it_works> \"b\"<it_works> \"c\"<it_works> \"d\""
    );
}

#[test]
fn eval_simple_prog_sugared_one_or_more_sequence() {
    assert_eq!(run("\na+. it_works;\n", "a"), "\"a\"<it_works>");
    assert_eq!(run("\na+. it_works;\n", "baaab"), "\"b\" \"aaa\"<it_works> \"b\"");
}

#[test]
fn comments_are_removed_before_a_quoted_literal() {
    assert_eq!(
        run("\n# pre-comment\n'a' # inline comment\n. it_works;\n", "a"),
        "\"a\"<it_works>"
    );
}

#[test]
fn block_comments_are_removed_around_a_quoted_literal() {
    assert_eq!(
        run(
            "\n## pre-comment with misleading code\n'a'. b;\n##\n'a' ## inline comment ##\n. it_works;\n",
            "a"
        ),
        "\"a\"<it_works>"
    );
}

#[test]
fn eval_simple_prog_quotes() {
    assert_eq!(run("\n{.quote.}. quote;\n", "quotea"), "\"quote\"<quote> \"a\"");
}

#[test]
fn a_quoted_literal_rule_gives_more_than_one_tag() {
    assert_eq!(run("\n'a'. foo, bar;\n", "a"), "\"a\"<foo,bar>");
}

#[test]
fn tags_of_earlier_rules_are_matched_by_later_ones() {
    assert_eq!(
        run("\n'a'. foo;\n'b'. bar;\nfoo & bar: baz;\n", "baab"),
        "\"b\"<bar> \"a\"<foo> \"a\" \"b\""
    );
    assert_eq!(
        run("\n%'a'. foo;\n%'b'. bar;\nfoo & bar: baz;\n", "baab"),
        "\"b\"<bar> \"a\"<foo> [\"a\"<foo> \"b\"<bar>]<baz>"
    );
}

#[test]
fn white_space_is_removed_one_match_or_all() {
    assert_eq!(
        run("\nws~;\n'a' & 'b'. ab;\n", "a  \n b"),
        "\"a\" \" \"<ws> \"\\n\"<ws> \" \"<ws> \"b\""
    );
    assert_eq!(run("\n%ws~;\n'a' & 'b'. ab;\n", "a  \n b"), "\"a  \\n b\"<ab>");
}

#[test]
fn choice_option_and_repetition_in_a_single_pass() {
    assert_eq!(
        run("%'a' | 'b'. chosen;", "abac"),
        "\"a\"<chosen> \"b\"<chosen> \"a\"<chosen> \"c\""
    );
    assert_eq!(run("%'a' & 'b'?. seq;", "abac"), "\"ab\"<seq> \"a\"<seq> \"c\"");
    assert_eq!(run("%'a' & 'b'*. seq;", "ababbbbac"), "\"ab\"<seq> \"abbbb\"<seq> \"a\"<seq> \"c\"");
}

#[test]
fn eval_simple_prog_basic_raw_sequence() {
    assert_eq!(run("\nraw(a). it_works;\n", "a"), "\"a\"<it_works>");
}

#[test]
fn eval_simple_prog_basic_choose_sequence() {
    assert_eq!(
        run("\nchoose(raw(a), raw(b)). chosen;\n", "abac"),
        "\"a\" \"b\" \"a\" \"c\""
    );
}

#[test]
fn eval_simple_prog_basic_recursive_choose_sequence() {
    assert_eq!(
        run("\nchoose(choose(raw(a)), raw(b)). chosen;\n", "abac"),
        "\"a\" \"b\" \"a\" \"c\""
    );
}

#[test]
fn eval_simple_prog_basic_multiple_sequence() {
    assert_eq!(run("\nmult(raw(a), raw(b)). seq;\n", "abac"), "\"a\" \"b\" \"a\" \"c\"");
}

#[test]
fn eval_simple_prog_basic_optional_sequence() {
    assert_eq!(run("\nmult(raw(a), opt(raw(b))). seq;\n", "abac"), "\"a\" \"b\" \"a\" \"c\"");
}

#[test]
fn eval_simple_prog_basic_repeated_sequence() {
    assert_eq!(
        run("\nmult(raw(a), repeat(raw(b))). seq;\n", "ababbbbac"),
        "\"a\" \"b\" \"a\" \"b\" \"b\" \"b\" \"b\" \"a\" \"c\""
    );
}

#[test]
fn eval_simple_prog_basic_has_tag_sequence() {
    assert_eq!(
        run("\nraw(a). foo;\nraw(b). bar;\nmult(has(foo), has(bar)): baz;\n", "baab"),
        "\"b\"<bar> \"a\"<foo> \"a\" \"b\""
    );
}

#[test]
fn eval_simple_prog_basic_whitespace_removal() {
    assert_eq!(
        run("\nhas(ws)~;\nmult(raw(a), raw(b)). ab;\n", "a  \n b"),
        "\"a\" \" \"<ws> \"\\n\"<ws> \" \"<ws> \"b\""
    );
}

#[test]
fn eval_simple_prog_more_than_one_tag() {
    assert_eq!(run("\nraw(a). foo, bar;\n", "a"), "\"a\"<foo,bar>");
}

#[test]
fn eval_simple_prog_sugared_has_tag_sequence() {
    assert_eq!(
        run("\nraw(a). foo;\nraw(b). bar;\nfoo & bar: baz;\n", "baab"),
        "\"b\"<bar> \"a\"<foo> \"a\" \"b\""
    );
}

#[test]
fn eval_simple_prog_comments() {
    assert_eq!(
        run("\n# pre-comment\nraw(a) # inline comment\n. it_works;\n", "a"),
        "\"a\"<it_works>"
    );
}

#[test]
fn eval_simple_prog_long_comments() {
    assert_eq!(
        run(
            "\n## pre-comment with misleading code\n'a'. b;\n##\nraw(a) ## inline comment ##\n. it_works;\n",
            "a"
        ),
        "\"a\"<it_works>"
    );
}

#[test]
fn digit_rule_gives_one_number_over_the_whole_input() {
    let tox = eval_prog_from_text("0..9+: number;", "123").unwrap();
    assert_eq!(tox.len(), 1);
    assert_eq!(tox[0].data, tags(&["number"]));
    assert_eq!(tox[0].content_range(), 0..3);
    assert_eq!(tox[0].content(), "123");
    assert_eq!(show(&tox), "[\"1\" \"2\" \"3\"]<number>");
}

const CALCULATOR: &str = "
    % {
        a..z | A..Z | '_'. letter;
        letter+. word;
        0..9+. int, number, expr;
        ws~;
    }

    ## calls and the operators, the tighter binding first ##
    {
        '(' & expr & ')': parens, expr;
        word & parens: call, expr;
        expr & '*' | '/' & expr: oper, expr;
        expr & '+' | '-' & expr: oper, expr;
    }
";

#[test]
fn precedence_follows_the_order_of_the_group() {
    let tox = eval_prog_from_text(CALCULATOR, "1+2*3").unwrap();
    assert_eq!(tox.len(), 1);
    let root = &tox[0];
    assert!(has(root, "oper"));
    assert_eq!(children(root).len(), 3);
    assert_eq!(children(root)[0].content(), "1");
    assert_eq!(children(root)[1].content(), "+");
    let right = &children(root)[2];
    assert!(has(right, "oper"));
    assert_eq!(children(right)[0].content(), "2");
    assert_eq!(children(right)[1].content(), "*");
    assert_eq!(children(right)[2].content(), "3");
    assert_eq!(
        show(&tox),
        "[\"1\"<int,number,expr> \"+\" [\"2\"<int,number,expr> \"*\" \"3\"<int,number,expr>]<oper,expr>]<oper,expr>"
    );
}

#[test]
fn calls_and_parentheses_nest() {
    let tox = eval_prog_from_text(CALCULATOR, "sqrt(4) * (1 + 2)").unwrap();
    assert_eq!(
        show(&tox),
        "[[\"sqrt\"<word> [\"(\" \"4\"<int,number,expr> \")\"]<parens,expr>]<call,expr> \"*\" [\"(\" [\"1\"<int,number,expr> \"+\" \"2\"<int,number,expr>]<oper,expr> \")\"]<parens,expr>]<oper,expr>"
    );
}

#[test]
fn grammar_that_compiles_gives_a_program() {
    let prog = prog_from_str(CALCULATOR).unwrap();
    assert_eq!(prog.reps.len(), 2);
    assert!(matches!(&prog.reps[0], RepTree::Once(inner) if matches!(**inner, RepTree::Branch(ref c) if c.len() == 4)));
    assert!(matches!(&prog.reps[1], RepTree::Branch(c) if c.len() == 4));
    assert!(prog_from_str("").unwrap().reps.is_empty());
    assert!(prog_from_str("stray words ( and marks").unwrap().reps.is_empty());
}

fn leaf_tok<'a>(root: &'a str, from: usize, to: usize, names: &[&str]) -> Tok<'a> {
    Token { root, t_type: TokenType::Leaf(from..to), data: tags(names) }
}

fn branch_tok<'a>(kids: Vec<Tok<'a>>, names: &[&str]) -> Tok<'a> {
    Token { root: kids[0].root, t_type: TokenType::Branch(kids), data: tags(names) }
}

#[test]
fn malformed_declaration_gives_no_program() {
    let src = "a:b;";
    // a rule declaration that is a leaf has no children to evaluate
    assert!(create_program(vec![leaf_tok(src, 0, 4, &["rep_leaf", "rep_deep", "rep"])]).is_none());
    // a rule declaration whose pattern carries no known tag
    let unknown = branch_tok(
        vec![leaf_tok(src, 0, 1, &["mystery"]), leaf_tok(src, 1, 2, &[]), leaf_tok(src, 2, 3, &["word"]), leaf_tok(src, 3, 4, &[])],
        &["rep_leaf", "rep_deep", "rep"],
    );
    assert!(create_program(vec![unknown]).is_none());
    // a declaration that names no action
    let no_action = branch_tok(
        vec![leaf_tok(src, 0, 1, &["word"]), leaf_tok(src, 1, 2, &[]), leaf_tok(src, 2, 3, &["word"]), leaf_tok(src, 3, 4, &[])],
        &["rep_leaf", "rep"],
    );
    assert!(create_program(vec![no_action]).is_none());
    // a token tagged as a rule without a known kind
    assert!(create_program(vec![leaf_tok(src, 0, 1, &["rep"])]).is_none());
    // one bad declaration spoils the whole program
    let good = tuck_tokens("a:b;").pop().unwrap();
    assert!(create_program(vec![good, leaf_tok(src, 0, 1, &["rep"])]).is_none());
}

#[test]
fn tokens_that_are_no_rules_are_passed_over() {
    let src = "a:b;";
    let prog = create_program(vec![leaf_tok(src, 0, 1, &["word", "expr"])]).unwrap();
    assert!(prog.reps.is_empty());
    let prog = create_program(tuck_tokens("x a:b; y")).unwrap();
    assert_eq!(prog.reps.len(), 1);
}

#[test]
fn eval_sequence_declines_malformed_expressions() {
    let src = "'..x";
    assert!(eval_sequence(&leaf_tok(src, 0, 1, &["raw"])).is_none());
    assert!(eval_sequence(&leaf_tok(src, 0, 3, &["quote"])).is_none());
    assert!(eval_sequence(&leaf_tok(src, 0, 3, &["range"])).is_none());
    assert!(eval_sequence(&leaf_tok(src, 0, 1, &["mult"])).is_none());
    assert!(eval_sequence(&leaf_tok(src, 0, 1, &["choose"])).is_none());
    assert!(eval_sequence(&leaf_tok(src, 0, 1, &["opt"])).is_none());
    assert!(eval_sequence(&leaf_tok(src, 0, 1, &["nothing"])).is_none());
    let one_child = branch_tok(vec![leaf_tok(src, 3, 4, &["word"])], &["parens"]);
    assert!(eval_sequence(&one_child).is_none());
}

#[test]
fn eval_sequence_reads_each_kind_of_expression() {
    let src = "'ab' {.cd.} a..c";
    let raw = eval_sequence(&leaf_tok(src, 0, 4, &["raw", "expr"])).unwrap();
    assert!(matches!(raw, DefinedSeq::Raw(ref t) if t == "ab"));
    let quote = eval_sequence(&leaf_tok(src, 5, 11, &["quote", "expr"])).unwrap();
    match quote {
        DefinedSeq::Multiple(parts) => {
            assert_eq!(parts.len(), 2);
            assert!(matches!(parts[0], DefinedSeq::Raw(ref t) if t == "c"));
            assert!(matches!(parts[1], DefinedSeq::Raw(ref t) if t == "d"));
        }
        _ => panic!("a quote block is a concatenation"),
    }
    let range = eval_sequence(&leaf_tok(src, 12, 16, &["range", "expr"])).unwrap();
    assert!(matches!(range, DefinedSeq::Range(97, 99)));
    let word = eval_sequence(&leaf_tok(src, 12, 13, &["word", "expr"])).unwrap();
    assert!(matches!(word, DefinedSeq::HasTag(ref t) if t == "a"));
    let sugar = tuck_tokens("a+");
    match eval_sequence(&sugar[0]).unwrap() {
        DefinedSeq::Multiple(parts) => {
            assert_eq!(parts.len(), 2);
            assert!(matches!(parts[0], DefinedSeq::HasTag(ref t) if t == "a"));
            assert!(matches!(parts[1], DefinedSeq::Repeat(ref d) if matches!(**d, DefinedSeq::HasTag(ref t) if t == "a")));
        }
        _ => panic!("one or more is a concatenation"),
    }
    let sugar = tuck_tokens("(a|b)?");
    match eval_sequence(&sugar[0]).unwrap() {
        DefinedSeq::Optional(inner) => {
            assert!(matches!(*inner, DefinedSeq::Choose(ref o) if o.len() == 2))
        }
        _ => panic!("a question mark makes an option"),
    }
}

#[test]
fn eval_rep_reads_each_kind_of_declaration() {
    let empty = SeqProg { reps: Vec::new() };
    let tox = tuck_tokens("a: x, y; b. z; c~; %d~; { e~; f~; }");
    assert_eq!(tox.len(), 5);
    match eval_rep(&tox[0], &empty).unwrap() {
        RepTree::Leaf(_, AnyTransform::Deep(DeepTransform { data })) => {
            assert_eq!(data, tags(&["x", "y"]))
        }
        _ => panic!("a colon declares a wrap"),
    }
    match eval_rep(&tox[1], &empty).unwrap() {
        RepTree::Leaf(_, AnyTransform::Shallow(ShallowTransform { data })) => {
            assert_eq!(data, tags(&["z"]))
        }
        _ => panic!("a dot declares a merge"),
    }
    assert!(matches!(
        eval_rep(&tox[2], &empty).unwrap(),
        RepTree::Leaf(_, AnyTransform::Remove(RemoveTransform {}))
    ));
    assert!(matches!(
        eval_rep(&tox[3], &empty).unwrap(),
        RepTree::Once(inner) if matches!(*inner, RepTree::Leaf(_, AnyTransform::Remove(_)))
    ));
    assert!(matches!(eval_rep(&tox[4], &empty).unwrap(), RepTree::Branch(c) if c.len() == 2));
    assert!(eval_rep(&tuck_tokens("a")[0], &empty).is_none());
}

fn letters(text: &str) -> Vec<Tok<'_>> {
    Token::token_vec_from_str(text, |c, _| char_to_token(c))
}

fn merge_a(tag: &str) -> RepTree {
    RepTree::Leaf(
        AnySeq::Raw(RawSeq::new("a")),
        AnyTransform::Shallow(ShallowTransform { data: tags(&[tag]) }),
    )
}

#[test]
fn leaf_rewrites_one_match_per_run() {
    let prog = SeqProg { reps: Vec::new() };
    let mut tox = letters("aaa");
    assert!(merge_a("hit").execute(&prog, &mut tox));
    assert_eq!(show(&tox), "\"a\"<hit> \"a\" \"a\"");
    let mut tox = letters("bbb");
    assert!(!merge_a("hit").execute(&prog, &mut tox));
    assert_eq!(show(&tox), "\"b\" \"b\" \"b\"");
}

#[test]
fn once_rewrites_all_matches_in_a_single_pass() {
    let prog = SeqProg { reps: Vec::new() };
    let mut tox = letters("aaa");
    let once = RepTree::Once(Box::new(merge_a("hit")));
    assert!(once.execute(&prog, &mut tox));
    assert_eq!(show(&tox), "\"a\"<hit> \"a\"<hit> \"a\"<hit>");
    assert_eq!(tox.len(), 3);
}

#[test]
fn once_around_once_runs_in_the_ordinary_way() {
    let prog = SeqProg { reps: Vec::new() };
    let mut tox = letters("aaa");
    let twice = RepTree::Once(Box::new(RepTree::Once(Box::new(merge_a("hit")))));
    assert!(twice.execute(&prog, &mut tox));
    assert_eq!(show(&tox), "\"a\"<hit> \"a\" \"a\"");
}

#[test]
fn once_around_a_group_runs_each_child_once_and_reports_a_change() {
    let prog = SeqProg { reps: Vec::new() };
    let mut tox = letters("aab");
    let delete_b = RepTree::Leaf(AnySeq::Raw(RawSeq::new("b")), AnyTransform::Remove(RemoveTransform {}));
    let group = RepTree::Once(Box::new(RepTree::Branch(vec![merge_a("hit"), delete_b])));
    assert!(group.execute(&prog, &mut tox));
    assert_eq!(show(&tox), "\"a\"<hit> \"a\"<hit>");
    let idle = RepTree::Once(Box::new(RepTree::Branch(vec![])));
    assert!(!idle.execute(&prog, &mut tox));
    assert_eq!(show(&tox), "\"a\"<hit> \"a\"<hit>");
}

#[test]
fn once_around_a_group_that_matches_nothing_reports_no_change() {
    let prog = SeqProg { reps: Vec::new() };
    let mut tox = letters("b");
    let delete_a =
        RepTree::Leaf(AnySeq::Raw(RawSeq::new("a")), AnyTransform::Remove(RemoveTransform {}));
    let inner = RepTree::Once(Box::new(RepTree::Branch(vec![delete_a])));
    assert!(!inner.execute(&prog, &mut tox));
    let tree = RepTree::Branch(vec![inner]);
    assert!(!tree.execute(&prog, &mut tox));
    assert_eq!(tox.len(), 1);
    assert_eq!(tox[0].content(), "b");
    assert_eq!(show(&tox), "\"b\"");
}

#[test]
fn execute_report_says_whether_the_run_finished() {
    let prog = SeqProg { reps: Vec::new() };
    let mut tox = letters("bbbb");
    let group = pair_then_mark();
    let report = group.execute_report(&prog, &mut tox);
    assert!(report.changed);
    assert!(report.finished);
    let report = group.execute_report(&prog, &mut tox);
    assert!(!report.changed);
    assert!(report.finished);
    let report = merge_a("hit").execute_report(&prog, &mut tox);
    assert!(!report.changed);
    assert!(report.finished);
}

fn pair_then_mark() -> RepTree {
    let marked_then_b = AnySeq::Multiple(token_rewrite::sequence::MultipleSeq::new(vec![
        AnySeq::First(has_tag("mark")),
        AnySeq::Raw(RawSeq::new("b")),
    ]));
    let wrap_pair =
        RepTree::Leaf(marked_then_b, AnyTransform::Deep(DeepTransform { data: tags(&["pair"]) }));
    let mark_b = RepTree::Leaf(
        AnySeq::Multiple(token_rewrite::sequence::MultipleSeq::new(vec![AnySeq::First(
            has_tag_owned(String::from("b")),
        )])),
        AnyTransform::Shallow(ShallowTransform { data: tags(&["mark"]) }),
    );
    RepTree::Branch(vec![wrap_pair, mark_b])
}

#[test]
fn group_gives_earlier_rules_first_refusal_and_ends_at_a_fixed_point() {
    let prog = SeqProg { reps: Vec::new() };
    let mut tox = letters("bbbb");
    let group = pair_then_mark();
    assert!(group.execute(&prog, &mut tox));
    assert_eq!(show(&tox), "[\"b\"<mark> \"b\"]<pair> [\"b\"<mark> \"b\"]<pair>");
    assert!(!group.execute(&prog, &mut tox));
    assert_eq!(show(&tox), "[\"b\"<mark> \"b\"]<pair> [\"b\"<mark> \"b\"]<pair>");
    if let RepTree::Branch(rules) = &group {
        for rule in rules {
            assert!(!rule.execute(&prog, &mut tox));
        }
    }
}

#[test]
fn group_with_an_odd_token_left_over_ends_at_rest() {
    let prog = SeqProg { reps: Vec::new() };
    let mut tox = letters("bbb");
    let group = pair_then_mark();
    assert!(group.execute(&prog, &mut tox));
    assert_eq!(show(&tox), "[\"b\"<mark> \"b\"]<pair> \"b\"<mark>");
    assert!(!group.execute(&prog, &mut tox));
    assert!(!RepTree::Branch(Vec::new()).execute(&prog, &mut tox));
}

#[test]
fn program_runs_each_tree_once_in_order() {
    let prog = SeqProg { reps: vec![merge_a("hit"), merge_a("late")] };
    let mut tox = letters("aaa");
    prog.execute(&mut tox);
    assert_eq!(show(&tox), "\"a\"<late> \"a\" \"a\"");
    let mut tox = letters("aaa");
    SeqProg { reps: Vec::new() }.execute(&mut tox);
    assert_eq!(show(&tox), "\"a\" \"a\" \"a\"");
}

#[test]
fn tag_and_range_matchers_test_one_token() {
    let tox = letters("a7 ");
    let refs: Vec<&Tok> = tox.iter().collect();
    assert_eq!(has_tag("u97").match_tokens(&refs), Some(1));
    assert_eq!(has_tag("u98").match_tokens(&refs), None);
    assert_eq!(has_tag_owned(String::from("a")).match_tokens(&refs), Some(1));
    assert_eq!(raw_range(97, 122).match_tokens(&refs), Some(1));
    assert_eq!(raw_range(97, 97).match_tokens(&refs), Some(1));
    assert_eq!(raw_range(98, 122).match_tokens(&refs), None);
    assert_eq!(raw_range(48, 57).match_tokens(&refs[1..]), Some(1));
    assert_eq!(raw_range(48, 57).match_tokens(&refs[3..]), None);
    let ws = token_rewrite::sequence::FirstTokenSeq::new(Probe::Whitespace);
    assert_eq!(ws.match_tokens(&refs[2..]), Some(1));
    assert_eq!(ws.match_tokens(&refs), None);
}

#[test]
fn range_matcher_wants_a_single_character() {
    let mut tox = letters("ab");
    let merge = ShallowTransform { data: tags(&["m"]) };
    token_rewrite::sequence::replace_all_matches(
        &token_rewrite::sequence::MultipleSeq::new(vec![
            AnySeq::<Probe>::Raw(RawSeq::new("a")),
            AnySeq::Raw(RawSeq::new("b")),
        ]),
        &merge,
        &mut tox,
    );
    let refs: Vec<&Tok> = tox.iter().collect();
    assert_eq!(raw_range(97, 122).match_tokens(&refs), None);
}

#[test]
fn resolve_makes_the_matcher_of_an_expression() {
    let prog = SeqProg { reps: Vec::new() };
    let expr = DefinedSeq::Multiple(vec![
        DefinedSeq::Raw(String::from("a")),
        DefinedSeq::Optional(Box::new(DefinedSeq::Range(48, 57))),
        DefinedSeq::Repeat(Box::new(DefinedSeq::Choose(vec![
            DefinedSeq::HasTag(String::from("b")),
            DefinedSeq::Raw(String::from("c")),
        ]))),
    ]);
    let seq = expr.resolve(&prog);
    let tox = letters("a1bcbd");
    let refs: Vec<&Tok> = tox.iter().collect();
    assert_eq!(seq.match_tokens(&refs), Some(5));
    let tox = letters("abx");
    let refs: Vec<&Tok> = tox.iter().collect();
    assert_eq!(seq.match_tokens(&refs), Some(2));
    let tox = letters("1a");
    let refs: Vec<&Tok> = tox.iter().collect();
    assert_eq!(seq.match_tokens(&refs), None);
}
