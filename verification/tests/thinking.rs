use lightningllm::thinking::ThinkingFilter;

fn transcript(show: bool, pieces: &[&str]) -> String {
    let mut filter = ThinkingFilter::new(show);
    let mut all = String::new();
    for piece in pieces {
        assert!(filter.accepts(piece));
        all.push_str(&filter.process(piece));
    }
    all.push_str(&filter.flush());
    all
}

fn letters(text: &str) -> Vec<String> {
    text.chars().map(|c| c.to_string()).collect()
}

fn letter_by_letter(show: bool, text: &str) -> String {
    let pieces = letters(text);
    let pieces: Vec<&str> = pieces.iter().map(|s| s.as_str()).collect();
    transcript(show, &pieces)
}

#[test]
fn holds_ten_bytes_back_outside_a_block() {
    let mut filter = ThinkingFilter::new(false);
    assert_eq!(filter.process("hello"), "");
    assert_eq!(filter.process(" world!"), "he");
    assert_eq!(filter.process(""), "");
    assert_eq!(filter.flush(), "llo world!");
    assert_eq!(filter.flush(), "");
}

#[test]
fn holds_eleven_bytes_back_inside_a_block() {
    let mut filter = ThinkingFilter::new(true);
    assert_eq!(filter.process("<think>0123456789abcdef"), "<think>01234");
    assert_eq!(filter.flush(), "56789abcdef");
}

#[test]
fn removes_a_block() {
    let text = "Well, <think>let me see</think>it is 4.";
    assert_eq!(transcript(false, &[text]), "Well, it is 4.");
    assert_eq!(transcript(true, &[text]), text);
    assert_eq!(letter_by_letter(false, text), "Well, it is 4.");
    assert_eq!(letter_by_letter(true, text), text);
}

#[test]
fn removes_a_long_block() {
    let text = "<thinking>hm</thinking>yes";
    assert_eq!(transcript(false, &[text]), "yes");
    assert_eq!(transcript(true, &[text]), text);
    assert_eq!(letter_by_letter(false, text), "yes");
    assert_eq!(letter_by_letter(true, text), text);
}

#[test]
fn removes_every_block() {
    let text = "a<think>b</think>c<think>d</think>e";
    assert_eq!(transcript(false, &[text]), "ace");
    assert_eq!(letter_by_letter(false, text), "ace");
    assert_eq!(transcript(false, &["a<thi", "nk>b</th", "ink>c<think", ">d</think>", "e"]), "ace");
}

#[test]
fn an_open_block_hides_the_rest() {
    let mut filter = ThinkingFilter::new(false);
    assert_eq!(filter.process("so <think>this goes on and on"), "so ");
    assert_eq!(filter.process(" and on"), "");
    assert_eq!(filter.flush(), "");
    assert_eq!(transcript(true, &["so <think>this goes on and on"]), "so <think>this goes on and on");
}

#[test]
fn stays_inside_a_block_after_a_flush() {
    let mut filter = ThinkingFilter::new(false);
    assert_eq!(filter.process("<think>a"), "");
    assert_eq!(filter.flush(), "");
    assert_eq!(filter.process("b</think>c"), "");
    assert_eq!(filter.flush(), "c");
}

#[test]
fn a_tag_of_the_other_kind_closes_a_block() {
    assert_eq!(transcript(false, &["<think>a</thinking>b"]), "b");
    assert_eq!(transcript(false, &["<thinking>a</think>b"]), "b");
}

#[test]
fn a_closing_tag_outside_a_block_is_text() {
    assert_eq!(transcript(false, &["a</think>b"]), "a</think>b");
}

#[test]
fn an_opening_tag_inside_a_block_is_reasoning() {
    assert_eq!(transcript(false, &["<think>a<think>b</think>c"]), "c");
}

#[test]
fn a_broken_tag_is_text() {
    assert_eq!(transcript(false, &["a<thin", "ker>b"]), "a<thinker>b");
    assert_eq!(transcript(false, &["1 < 2"]), "1 < 2");
}

#[test]
fn both_spellings_in_one_piece() {
    let text = "<thinking>a</thinking>b<think>c</think>d";
    let mut filter = ThinkingFilter::new(false);
    assert_eq!(filter.process(text), "b");
    assert_eq!(filter.flush(), "d");
    assert_eq!(letter_by_letter(false, text), "bd");
    assert_eq!(transcript(true, &[text]), text);
}

#[test]
fn text_between_blocks_of_both_spellings_is_shown() {
    let mut filter = ThinkingFilter::new(false);
    assert_eq!(filter.process("<thinking>"), "");
    assert_eq!(filter.process("a</thinking>b<think>c</think>d"), "b");
    assert_eq!(filter.flush(), "d");
}

#[test]
fn pieces_of_any_size_remove_all_blocks() {
    let text = "<thinking>a</thinking>b<think>c</think>d";
    let letters: Vec<char> = text.chars().collect();
    for size in 1..=letters.len() {
        let pieces: Vec<String> = letters.chunks(size).map(|c| c.iter().collect()).collect();
        let pieces: Vec<&str> = pieces.iter().map(|s| s.as_str()).collect();
        assert_eq!(transcript(false, &pieces), "bd");
    }
    assert_eq!(transcript(false, &["<thinking", "><think>x</think>y"]), "y");
}

#[test]
fn wide_characters_pass_where_they_are_not_torn() {
    let mut filter = ThinkingFilter::new(false);
    assert!(filter.accepts("aééééé"));
    assert_eq!(filter.process("aééééé"), "a");
    assert_eq!(filter.flush(), "ééééé");
}

#[test]
fn wide_characters_are_refused_where_they_would_be_torn() {
    let mut filter = ThinkingFilter::new(false);
    assert!(!filter.accepts("éééééa"));
    assert!(filter.accepts("ééééé"));
    assert!(filter.accepts("<think>"));
    assert_eq!(filter.process("<think>é"), "");
    assert!(!filter.accepts("éééééé"));
    assert!(filter.accepts("ééééa</think>é"));
}

#[test]
fn wide_characters_around_a_block() {
    assert_eq!(transcript(false, &["né<think>où</think>là"]), "nélà");
    assert_eq!(transcript(true, &["né<think>où</think>là"]), "né<think>où</think>là");
}

#[test]
fn every_cut_shows_the_same() {
    for text in [
        "a<think>b</think>c<thinking>d</thinking>e",
        "a<thinking>b</thinking>c<think>d</think>e",
        "a<think>b</thinking>c<thinking>d</think>e",
        "a<thinking><think>b</think>c<think></thinking>e",
    ] {
        let n = text.len();
        for i in 0..=n {
            for j in i..=n {
                let pieces = [&text[..i], &text[i..j], &text[j..]];
                assert_eq!(transcript(false, &pieces), "ace");
                assert_eq!(transcript(true, &pieces), text);
            }
        }
    }
}
