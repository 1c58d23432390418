use bpe_tokenizer::merge::{Rule, Token};

fn toks(v: &[usize]) -> Vec<Token> {
    v.iter().map(|&t| Token(t)).collect()
}

#[test]
fn apply_into_merges_left_to_right() {
    let rule = Rule::new(Token(0), Token(0), Token(5));
    let tokens = toks(&[0, 0, 0]);
    let mut out = vec![Token(9)];
    rule.apply_into(&tokens, &mut out);
    assert_eq!(out, toks(&[9, 5, 0]));
}

#[test]
fn apply_ip_merges_left_to_right() {
    let rule = Rule::new(Token(0), Token(0), Token(5));
    let mut tokens = toks(&[0, 0, 0, 0, 1, 0]);
    rule.apply_ip(&mut tokens);
    assert_eq!(tokens, toks(&[5, 5, 1, 0]));
}

#[test]
fn apply_ip_and_apply_into_agree() {
    let rule = Rule::new(Token(1), Token(2), Token(7));
    let input = toks(&[1, 2, 2, 1, 2, 1, 1, 2, 3]);
    let mut in_place = input.clone();
    rule.apply_ip(&mut in_place);
    let mut out = Vec::new();
    rule.apply_into(&input, &mut out);
    assert_eq!(in_place, out);
    assert_eq!(out, toks(&[7, 2, 7, 1, 7, 3]));
}

#[test]
fn apply_without_occurrence_keeps_tokens() {
    let rule = Rule::new(Token(3), Token(4), Token(9));
    let mut tokens = toks(&[4, 3, 3]);
    rule.apply_ip(&mut tokens);
    assert_eq!(tokens, toks(&[4, 3, 3]));
}

#[test]
fn apply_on_empty_and_single() {
    let rule = Rule::new(Token(0), Token(0), Token(1));
    let mut empty: Vec<Token> = Vec::new();
    rule.apply_ip(&mut empty);
    assert!(empty.is_empty());
    let mut one = toks(&[0]);
    rule.apply_ip(&mut one);
    assert_eq!(one, toks(&[0]));
}

#[test]
fn spelling_replacements_out_undoes_a_merge() {
    let rule = Rule::new(Token(1), Token(2), Token(7));
    let input = toks(&[1, 2, 2, 1, 2, 1, 1, 2, 3]);
    let mut merged = input.clone();
    rule.apply_ip(&mut merged);
    let mut undone = Vec::new();
    for t in merged {
        if t == Token(7) {
            undone.push(Token(1));
            undone.push(Token(2));
        } else {
            undone.push(t);
        }
    }
    assert_eq!(undone, input);
}

#[test]
fn a_second_merge_pass_changes_nothing() {
    let rule = Rule::new(Token(0), Token(0), Token(5));
    let input = toks(&[0, 0, 0, 0, 0, 1, 0, 0]);
    let mut once = input.clone();
    rule.apply_ip(&mut once);
    assert_eq!(once, toks(&[5, 5, 0, 1, 5]));
    let mut twice = once.clone();
    rule.apply_ip(&mut twice);
    assert_eq!(twice, once);
    assert!(once.len() <= input.len() && input.len() <= 2 * once.len());
}
