use token_rewrite::meta::{
    eval_prog_from_text, graph_with_tags, prog_from_str, DefinedSeq, RepTree, SeqProg,
};
use token_rewrite::sequence::{AnySeq, RawSeq};
use token_rewrite::transform::{AnyTransform, RemoveTransform};

#[test]
fn expressions_are_written_out() {
    assert_eq!(DefinedSeq::Raw(String::from("a")).to_text(), "raw(a)");
    assert_eq!(DefinedSeq::HasTag(String::from("word")).to_text(), "has(word)");
    assert_eq!(DefinedSeq::Range(48, 57).to_text(), "48..57");
    assert_eq!(DefinedSeq::Range(0, 1114111).to_text(), "0..1114111");
    assert_eq!(
        DefinedSeq::Optional(Box::new(DefinedSeq::Raw(String::from("b")))).to_text(),
        "opt(raw(b))"
    );
    assert_eq!(
        DefinedSeq::Repeat(Box::new(DefinedSeq::HasTag(String::from("x")))).to_text(),
        "repeat(has(x))"
    );
    assert_eq!(DefinedSeq::Choose(Vec::new()).to_text(), "choose()");
    assert_eq!(
        DefinedSeq::Choose(vec![
            DefinedSeq::Raw(String::from("a")),
            DefinedSeq::Multiple(vec![DefinedSeq::Range(97, 99)]),
        ])
        .to_text(),
        "choose(raw(a),mult(97..99,),)"
    );
}

fn delete(text: &str) -> RepTree {
    RepTree::Leaf(AnySeq::Raw(RawSeq::new(text)), AnyTransform::Remove(RemoveTransform {}))
}

#[test]
fn rule_trees_are_written_out() {
    assert_eq!(delete("a").to_text(), "sequence");
    assert_eq!(RepTree::Once(Box::new(delete("a"))).to_text(), "%sequence");
    assert_eq!(RepTree::Branch(Vec::new()).to_text(), "");
    assert_eq!(
        RepTree::Branch(vec![delete("a"), RepTree::Once(Box::new(delete("b")))]).to_text(),
        "sequence%sequence"
    );
    assert_eq!(
        RepTree::Once(Box::new(RepTree::Once(Box::new(RepTree::Branch(vec![delete("a")])))))
            .to_text(),
        "%%sequence"
    );
}

#[test]
fn programs_are_written_out() {
    assert_eq!(SeqProg { reps: Vec::new() }.to_text(), "");
    let prog = prog_from_str("a~; %{ b~; c: d; } { e. f; }").unwrap();
    assert_eq!(prog.to_text(), "sequence%sequencesequencesequence");
}

#[test]
fn forests_are_drawn_with_their_tags() {
    let tox = eval_prog_from_text("0..9+: number;", "12 ").unwrap();
    assert_eq!(
        graph_with_tags(&tox),
        "{\n\t1\n\t2\n}\nTags: number \n \nTags:   u32 ws \n"
    );
    assert_eq!(graph_with_tags(&Vec::new()), "");
}
