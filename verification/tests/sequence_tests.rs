use token_rewrite::meta::Probe;
use token_rewrite::sequence::{
    match_all_tokens, test_and_transform, AnySeq, ChooseSeq, FirstTokenSeq, MultipleSeq,
    OptionalSeq, RawSeq, RepeatedSeq, Sequence,
};
use token_rewrite::token::Token;
use token_rewrite::transform::{RemoveTransform, ShallowTransform};

fn lit(text: &str) -> AnySeq<Probe> {
    AnySeq::Raw(RawSeq::new(text))
}

fn plain(text: &str) -> Vec<Token<'_, Vec<String>>> {
    Token::token_vec_from_str(text, |_, _| Vec::new())
}

fn assert_match(seq: impl Sequence<Vec<String>>, text: &str, should_match: bool) {
    let tox = plain(text);
    let refs: Vec<&Token<Vec<String>>> = tox.iter().collect();
    assert_eq!(match_all_tokens(&seq, refs.as_slice()), should_match);
}

fn prefix(seq: &impl Sequence<Vec<String>>, text: &str) -> Option<usize> {
    let tox = plain(text);
    let refs: Vec<&Token<Vec<String>>> = tox.iter().collect();
    seq.match_tokens(refs.as_slice())
}

#[test]
fn raw_seq_test_basic_passing_case() {
    assert_match(RawSeq::new("a"), "a", true);
}

#[test]
fn raw_seq_test_basic_failing_case() {
    assert_match(RawSeq::new("a"), "b", false);
}

#[test]
fn raw_seq_test_matching_empty_string() {
    assert_match(RawSeq::new("a"), "", false);
}

#[test]
fn raw_seq_test_multiple_of_correct_token() {
    assert_match(RawSeq::new("a"), "aa", false);
}

fn a_or_b() -> ChooseSeq<Probe> {
    ChooseSeq::new(vec![lit("a"), lit("b")])
}

#[test]
fn choose_seq_test_first_option() {
    assert_match(a_or_b(), "a", true);
}

#[test]
fn choose_seq_test_second_option() {
    assert_match(a_or_b(), "b", true);
}

#[test]
fn choose_seq_test_matching_empty_string() {
    assert_match(a_or_b(), "", false);
}

#[test]
fn choose_seq_test_multiple_of_correct_token() {
    assert_match(a_or_b(), "aa", false);
}

#[test]
fn choose_seq_test_both_correct_tokens() {
    assert_match(a_or_b(), "ab", false);
}

#[test]
fn choose_seq_test_single_incorrect_token() {
    assert_match(a_or_b(), "c", false);
}

fn maybe_a() -> OptionalSeq<Probe> {
    OptionalSeq::new(Box::new(lit("a")))
}

#[test]
fn opt_seq_test_basic_passing_case() {
    assert_match(maybe_a(), "a", true);
}

#[test]
fn opt_seq_test_empty_passing_case() {
    assert_match(maybe_a(), "", true);
}

#[test]
fn opt_seq_test_incorrect_string() {
    assert_match(maybe_a(), "b", false);
}

#[test]
fn opt_seq_test_multiple_of_incorrect_token() {
    assert_match(maybe_a(), "aa", false);
}

fn many_a() -> RepeatedSeq<Probe> {
    RepeatedSeq::new(Box::new(lit("a")))
}

#[test]
fn rep_seq_test_basic_passing_case() {
    assert_match(many_a(), "a", true);
}

#[test]
fn rep_seq_test_empty_passing_case() {
    assert_match(many_a(), "", true);
}

#[test]
fn rep_seq_test_multiple_of_correct_token() {
    assert_match(many_a(), "aa", true);
}

#[test]
fn rep_seq_test_correct_tokens_followed_by_one_incorrect() {
    assert_match(many_a(), "aab", false);
    assert_eq!(prefix(&many_a(), "aab"), Some(2));
}

#[test]
fn rep_seq_test_incorrect_string() {
    assert_match(many_a(), "b", false);
    assert_eq!(prefix(&many_a(), "b"), Some(0));
}

fn a_then_b() -> MultipleSeq<Probe> {
    MultipleSeq::new(vec![lit("a"), lit("b")])
}

#[test]
fn mult_seq_test_basic_passing_case() {
    assert_match(a_then_b(), "ab", true);
}

#[test]
fn mult_seq_test_empty_failing_case() {
    assert_match(a_then_b(), "", false);
}

#[test]
fn mult_seq_test_multiple_of_incorrect_token() {
    assert_match(a_then_b(), "aa", false);
}

#[test]
fn mult_seq_test_correct_tokens_followed_by_one_incorrect() {
    assert_match(a_then_b(), "aab", false);
}

#[test]
fn mult_seq_test_incorrect_string() {
    assert_match(a_then_b(), "b", false);
}

#[test]
fn concatenation_matches_exactly_its_parts_in_order() {
    assert_match(a_then_b(), "ab", true);
    assert_match(a_then_b(), "a", false);
    assert_match(a_then_b(), "ba", false);
    assert_match(a_then_b(), "aab", false);
    assert_eq!(prefix(&a_then_b(), "abz"), Some(2));
}

#[test]
fn empty_concatenation_consumes_nothing() {
    let seq: MultipleSeq<Probe> = MultipleSeq::new(Vec::new());
    assert_eq!(prefix(&seq, "abc"), Some(0));
    assert_eq!(prefix(&seq, ""), Some(0));
}

#[test]
fn empty_choice_declines() {
    let seq: ChooseSeq<Probe> = ChooseSeq::new(Vec::new());
    assert_eq!(prefix(&seq, "abc"), None);
}

#[test]
fn greedy_repeat_leaves_nothing_for_a_following_literal() {
    let seq = MultipleSeq::new(vec![AnySeq::Repeated(many_a()), lit("a")]);
    assert_eq!(prefix(&seq, "aaa"), None);
    assert_match(seq, "aaa", false);
}

#[test]
fn alternation_takes_the_first_option_that_matches() {
    let ab = AnySeq::Multiple(a_then_b());
    let seq = ChooseSeq::new(vec![lit("a"), ab]);
    assert_eq!(prefix(&seq, "ab"), Some(1));
    assert_match(seq, "ab", false);
}

#[test]
fn repetition_of_an_empty_match_ends() {
    let seq = RepeatedSeq::new(Box::new(AnySeq::Optional(maybe_a())));
    assert_eq!(prefix(&seq, "aab"), Some(2));
    assert_eq!(prefix(&seq, "b"), Some(0));
}

#[test]
fn matching_twice_gives_the_same_result() {
    let seq = MultipleSeq::new(vec![lit("a"), AnySeq::Repeated(many_a()), lit("b")]);
    let tox = plain("aaab");
    let refs: Vec<&Token<Vec<String>>> = tox.iter().collect();
    let first = seq.match_tokens(refs.as_slice());
    let second = seq.match_tokens(refs.as_slice());
    assert_eq!(first, Some(4));
    assert_eq!(first, second);
    assert_eq!(Token::vec_content(&tox), "aaab");
}

#[test]
fn choice_from_text_offers_each_character() {
    let seq: ChooseSeq<Probe> = ChooseSeq::from_str("xyz");
    assert_eq!(seq.options.len(), 3);
    assert_eq!(prefix(&seq, "y"), Some(1));
    assert_eq!(prefix(&seq, "a"), None);
}

#[test]
fn raw_seq_from_owned_text() {
    assert_match(RawSeq::new_from_owned(String::from("q")), "q", true);
}

#[test]
fn tag_predicate_consumes_one_token_that_passes() {
    let seq = FirstTokenSeq::new(Probe::Not(String::from("a")));
    assert_eq!(prefix(&seq, "ba"), Some(1));
    assert_eq!(prefix(&seq, "ab"), None);
    assert_eq!(prefix(&seq, ""), None);
}

#[test]
fn splice_reports_the_length_of_the_replacement() {
    let mut tox = plain("xaab");
    let seq = MultipleSeq::new(vec![lit("a"), lit("a")]);
    let merge = ShallowTransform { data: vec![String::from("pair")] };
    assert_eq!(test_and_transform(&seq, &merge, &mut tox, 0), None);
    assert_eq!(tox.len(), 4);
    assert_eq!(test_and_transform(&seq, &merge, &mut tox, 1), Some(1));
    assert_eq!(tox.len(), 3);
    assert_eq!(tox[1].content(), "aa");
    assert_eq!(tox[1].data, vec![String::from("pair")]);
    assert_eq!(test_and_transform(&lit("b"), &RemoveTransform {}, &mut tox, 2), Some(0));
    assert_eq!(Token::vec_content(&tox), "xaa");
    assert_eq!(test_and_transform(&lit("b"), &RemoveTransform {}, &mut tox, 2), None);
}
