use token_rewrite::meta::Probe;
use token_rewrite::sequence::{
    replace_all_matches, replace_first_match, AnySeq, FirstTokenSeq, MultipleSeq, RawSeq,
};
use token_rewrite::token::{Token, TokenType};
use token_rewrite::transform::{
    repeat_until_no_change, AnyTransform, DeepTransform, RemoveTransform, ShallowTransform,
    Transform,
};

fn plain(text: &str) -> Vec<Token<'_, Vec<String>>> {
    Token::token_vec_from_str(text, |_, _| Vec::new())
}

fn tags(names: &[&str]) -> Vec<String> {
    names.iter().map(|n| n.to_string()).collect()
}

fn remove_a(text: &str) -> String {
    let seq = RawSeq::new("a");
    let mut tox = plain(text);
    replace_all_matches(&seq, &RemoveTransform {}, &mut tox);
    Token::vec_content(&tox)
}

#[test]
fn remove_a_test_removing_one_letter() {
    assert_eq!("bc", remove_a("abc"));
}

#[test]
fn remove_a_test_removing_two_letters() {
    assert_eq!("bc", remove_a("abca"));
}

#[test]
fn remove_a_test_removing_the_same_letter_repeatedly() {
    assert_eq!("", remove_a("aaa"));
}

#[test]
fn remove_a_test_removing_no_letters() {
    assert_eq!("bc", remove_a("bc"));
}

#[test]
fn remove_a_test_no_letters() {
    assert_eq!("", remove_a(""));
}

#[test]
fn merge_gives_one_leaf_over_the_run() {
    let mut tox = plain("abcd");
    tox.remove(0);
    let merged = ShallowTransform { data: tags(&["word"]) }.transform(tox);
    assert_eq!(merged.len(), 1);
    assert!(matches!(merged[0].t_type, TokenType::Leaf(_)));
    assert_eq!(merged[0].content_range(), 1..4);
    assert_eq!(merged[0].content(), "bcd");
    assert_eq!(merged[0].data, tags(&["word"]));
}

#[test]
fn wrap_keeps_the_run_as_children() {
    let tox = plain("ab");
    let wrapped = DeepTransform { data: tags(&["pair", "expr"]) }.transform(tox);
    assert_eq!(wrapped.len(), 1);
    assert_eq!(wrapped[0].data, tags(&["pair", "expr"]));
    assert_eq!(wrapped[0].content(), "ab");
    match &wrapped[0].t_type {
        TokenType::Branch(children) => {
            assert_eq!(children.len(), 2);
            assert_eq!(children[0].content(), "a");
            assert_eq!(children[1].content(), "b");
        }
        TokenType::Leaf(_) => panic!("a wrap gives a branch"),
    }
}

#[test]
fn delete_gives_nothing() {
    let out: Vec<Token<Vec<String>>> = RemoveTransform {}.transform(plain("abc"));
    assert!(out.is_empty());
}

#[test]
fn actions_on_an_empty_run_give_nothing() {
    assert!(ShallowTransform { data: tags(&["x"]) }.transform(plain("")).is_empty());
    assert!(DeepTransform { data: tags(&["x"]) }.transform(plain("")).is_empty());
    let any: AnyTransform<Vec<String>> = AnyTransform::Remove(RemoveTransform {});
    assert!(any.transform(plain("")).is_empty());
}

#[test]
fn any_transform_does_what_its_action_does() {
    let merge = AnyTransform::Shallow(ShallowTransform { data: tags(&["m"]) });
    let out = merge.transform(plain("xy"));
    assert_eq!(out.len(), 1);
    assert_eq!(out[0].content(), "xy");
    assert!(matches!(out[0].t_type, TokenType::Leaf(_)));
    let wrap = AnyTransform::Deep(DeepTransform { data: tags(&["w"]) });
    let out = wrap.transform(plain("xy"));
    assert!(matches!(out[0].t_type, TokenType::Branch(_)));
}

#[test]
fn sweep_goes_on_behind_the_replacement() {
    let seq = MultipleSeq::new(vec![
        AnySeq::<Probe>::Raw(RawSeq::new("a")),
        AnySeq::Raw(RawSeq::new("a")),
    ]);
    let mut tox = plain("aaaaa");
    let changed = replace_all_matches(&seq, &ShallowTransform { data: tags(&["pair"]) }, &mut tox);
    assert!(changed);
    assert_eq!(tox.len(), 3);
    assert_eq!(tox[0].content(), "aa");
    assert_eq!(tox[1].content(), "aa");
    assert_eq!(tox[2].content(), "a");
    assert!(tox[2].data.is_empty());
}

#[test]
fn sweep_that_matches_nothing_reports_no_change() {
    let mut tox = plain("xyz");
    let changed = replace_all_matches(&RawSeq::new("a"), &RemoveTransform {}, &mut tox);
    assert!(!changed);
    assert_eq!(Token::vec_content(&tox), "xyz");
}

#[test]
fn first_match_rewrites_one_place_only() {
    let mut tox = plain("bab a");
    let rule = RawSeq::new("a");
    assert!(replace_first_match(&rule, &RemoveTransform {}, &mut tox));
    assert_eq!(Token::vec_content(&tox), "bb a");
    assert!(replace_first_match(&rule, &RemoveTransform {}, &mut tox));
    assert_eq!(Token::vec_content(&tox), "bb ");
    assert!(!replace_first_match(&rule, &RemoveTransform {}, &mut tox));
    assert_eq!(Token::vec_content(&tox), "bb ");
}

#[test]
fn a_match_of_no_tokens_is_passed_over() {
    let nothing = token_rewrite::sequence::OptionalSeq::new(Box::new(AnySeq::<Probe>::Raw(
        RawSeq::new("q"),
    )));
    let mut tox = plain("abc");
    let merge = ShallowTransform { data: tags(&["m"]) };
    assert!(!replace_all_matches(&nothing, &merge, &mut tox));
    assert!(!replace_first_match(&nothing, &merge, &mut tox));
    assert_eq!(tox.len(), 3);
}

#[test]
fn delete_sweep_of_white_space_converges() {
    let ws = FirstTokenSeq::new(Probe::HasTag(String::from("ws")));
    let mut tox = Token::token_vec_from_str("a  b", |c, _| token_rewrite::meta::char_to_token(c));
    assert!(replace_all_matches(&ws, &RemoveTransform {}, &mut tox));
    assert_eq!(Token::vec_content(&tox), "ab");
    assert!(!replace_all_matches(&ws, &RemoveTransform {}, &mut tox));
    assert_eq!(Token::vec_content(&tox), "ab");
    assert!(!replace_all_matches(&ws, &RemoveTransform {}, &mut tox));
    assert_eq!(tox.len(), 2);
}

#[test]
fn first_match_stops_at_a_match_of_no_tokens() {
    let maybe_a = token_rewrite::sequence::OptionalSeq::new(Box::new(AnySeq::<Probe>::Raw(
        RawSeq::new("a"),
    )));
    let merge = ShallowTransform { data: tags(&["m"]) };
    let mut tox = plain("ba");
    assert!(!replace_first_match(&maybe_a, &merge, &mut tox));
    assert_eq!(tox.len(), 2);
    assert!(tox[0].data.is_empty());
    assert!(tox[1].data.is_empty());
    let mut tox = plain("ab");
    assert!(replace_first_match(&maybe_a, &merge, &mut tox));
    assert_eq!(tox[0].data, tags(&["m"]));
    assert!(tox[1].data.is_empty());
    let mut tox = plain("ba");
    assert!(replace_all_matches(&maybe_a, &merge, &mut tox));
    assert!(tox[0].data.is_empty());
    assert_eq!(tox[1].data, tags(&["m"]));
}

struct Counter {
    left: u32,
    log: Vec<usize>,
}

#[test]
fn steps_are_called_in_order_and_start_over_after_a_change() {
    let take_if_odd = |c: &mut Counter| {
        c.log.push(0);
        if c.left % 2 == 1 {
            c.left -= 1;
            true
        } else {
            false
        }
    };
    let take_one = |c: &mut Counter| {
        c.log.push(1);
        if c.left > 0 {
            c.left -= 1;
            true
        } else {
            false
        }
    };
    let steps: Vec<&dyn Fn(&mut Counter) -> bool> = vec![&take_if_odd, &take_one];
    let mut state = Counter { left: 4, log: Vec::new() };
    assert!(repeat_until_no_change(&steps, &mut state));
    assert_eq!(state.left, 0);
    assert_eq!(state.log, vec![0, 1, 0, 0, 1, 0, 0, 1]);
    state.log.clear();
    assert!(!repeat_until_no_change(&steps, &mut state));
    assert_eq!(state.log, vec![0, 1]);
}

#[test]
fn no_steps_report_no_change() {
    let steps: Vec<&dyn Fn(&mut u8) -> bool> = Vec::new();
    let mut state = 7u8;
    assert!(!repeat_until_no_change(&steps, &mut state));
    assert_eq!(state, 7);
}

#[test]
fn sweeps_as_steps_reach_a_fixed_point() {
    let a = RawSeq::new("a");
    let pair = MultipleSeq::new(vec![
        AnySeq::<Probe>::Raw(RawSeq::new("b")),
        AnySeq::Raw(RawSeq::new("b")),
    ]);
    let merge = ShallowTransform { data: tags(&["pair"]) };
    let drop_a = |c: &mut Vec<Token<Vec<String>>>| replace_first_match(&a, &RemoveTransform {}, c);
    let join_b = |c: &mut Vec<Token<Vec<String>>>| replace_first_match(&pair, &merge, c);
    let steps: Vec<&dyn Fn(&mut Vec<Token<Vec<String>>>) -> bool> = vec![&drop_a, &join_b];
    let mut tox = plain("babab");
    assert!(repeat_until_no_change(&steps, &mut tox));
    assert_eq!(tox.len(), 2);
    assert_eq!(tox[0].content(), "bab");
    assert_eq!(tox[0].data, tags(&["pair"]));
    assert_eq!(tox[1].content(), "b");
    assert!(!repeat_until_no_change(&steps, &mut tox));
}
