use lightningllm::inference::{prompt_batch, token_to_string, Generation, Sampled};
use std::cell::RefCell;

fn text(piece: &str) -> Sampled {
    Sampled::Text(piece.to_string())
}

#[test]
fn prompt_is_laid_out_in_order() {
    let entries = prompt_batch(&[7, 8, 9]);
    let seen: Vec<(i32, i32, bool)> =
        entries.iter().map(|e| (e.token, e.position, e.logits)).collect();
    assert_eq!(seen, vec![(7, 0, false), (8, 1, false), (9, 2, true)]);
    let none: [i32; 0] = [];
    assert!(prompt_batch(&none).is_empty());
}

#[test]
fn token_text_from_the_small_buffer() {
    let sizes = RefCell::new(Vec::new());
    let piece = token_to_string(|n| {
        sizes.borrow_mut().push(n);
        Some("héllo".as_bytes().to_vec())
    });
    assert_eq!(piece, "héllo");
    assert_eq!(*sizes.borrow(), vec![32]);
}

#[test]
fn token_text_from_the_large_buffer() {
    let sizes = RefCell::new(Vec::new());
    let piece = token_to_string(|n| {
        sizes.borrow_mut().push(n);
        if n < 100 {
            None
        } else {
            Some("long".as_bytes().to_vec())
        }
    });
    assert_eq!(piece, "long");
    assert_eq!(*sizes.borrow(), vec![32, 256]);
}

#[test]
fn token_without_text() {
    assert_eq!(token_to_string(|_| None), "");
    assert_eq!(token_to_string(|_| Some(Vec::new())), "");
}

#[test]
fn token_text_that_is_not_utf8() {
    assert_eq!(token_to_string(|_| Some(vec![102, 255, 111])), "f\u{fffd}o");
    assert_eq!(token_to_string(|_| Some(vec![195])), "\u{fffd}");
}

#[test]
fn answer_up_to_the_end_token() {
    let mut generation = Generation::new(3, 100, false);
    let step = generation.take(&text("Hello, "), false);
    assert_eq!(step.shown, "");
    assert_eq!(step.next, Some(3));
    let step = generation.take(&text("world"), false);
    assert_eq!(step.shown, "He");
    assert_eq!(step.next, Some(4));
    let step = generation.take(&text("!"), true);
    assert_eq!(step.shown, "l");
    assert_eq!(step.next, None);
    assert_eq!(generation.finish(), ("lo, world!".to_string(), "Hello, world!".to_string()));
}

#[test]
fn control_token_ends_the_answer() {
    let mut generation = Generation::new(3, 100, false);
    assert_eq!(generation.take(&text("Hi"), false).next, Some(3));
    let step = generation.take(&Sampled::Control, false);
    assert_eq!(step.shown, "");
    assert_eq!(step.next, None);
    assert_eq!(generation.finish(), ("Hi".to_string(), "Hi".to_string()));
}

#[test]
fn end_marks_end_the_answer() {
    for mark in ["<|im_end|>", "x<|eot_id|>y"] {
        let mut generation = Generation::new(3, 100, true);
        assert_eq!(generation.take(&text("Hi"), false).next, Some(3));
        assert_eq!(generation.take(&text(mark), false).next, None);
        assert_eq!(generation.finish(), ("Hi".to_string(), "Hi".to_string()));
    }
}

#[test]
fn first_token_can_be_passed_over() {
    for first in [Sampled::Control, text("<|im_end|>")] {
        let mut generation = Generation::new(3, 100, false);
        let step = generation.take(&first, false);
        assert_eq!(step.shown, "");
        assert_eq!(step.next, Some(3));
        assert_eq!(generation.take(&text("Hi"), false).next, Some(4));
        assert_eq!(generation.finish(), ("Hi".to_string(), "Hi".to_string()));
    }
    let mut generation = Generation::new(3, 100, false);
    assert_eq!(generation.take(&Sampled::Control, true).next, None);
}

#[test]
fn answer_stays_in_the_context() {
    let mut generation = Generation::new(3, 5, false);
    assert_eq!(generation.take(&text("a"), false).next, Some(3));
    assert_eq!(generation.take(&text("b"), false).next, Some(4));
    assert_eq!(generation.take(&text("c"), false).next, None);
    assert_eq!(generation.finish().1, "abc");

    let mut generation = Generation::new(5, 5, false);
    assert_eq!(generation.take(&text("a"), false).next, None);
    assert_eq!(generation.finish().1, "a");
}

#[test]
fn context_sizes_beyond_the_signed_range_are_empty() {
    let mut generation = Generation::new(3, 0x8000_0000, false);
    assert_eq!(generation.take(&text("a"), false).next, None);
    let mut generation = Generation::new(3, 0x7fff_ffff, false);
    assert_eq!(generation.take(&text("a"), false).next, Some(3));
}

#[test]
fn reasoning_is_kept_and_not_printed() {
    let tokens = ["<think>", "2 and 2", "</think>", "It is ", "4."];
    for show in [false, true] {
        let mut generation = Generation::new(1, 100, show);
        let mut printed = String::new();
        for token in tokens {
            printed.push_str(&generation.take(&text(token), false).shown);
        }
        let (rest, reply) = generation.finish();
        printed.push_str(&rest);
        assert_eq!(reply, "<think>2 and 2</think>It is 4.");
        assert_eq!(printed, if show { reply.as_str() } else { "It is 4." });
    }
}

#[test]
fn torn_characters_are_refused() {
    let generation = Generation::new(1, 100, false);
    assert!(!generation.accepts(&text("éééééa")));
    assert!(generation.accepts(&text("éééééa<|im_end|>")));
    assert!(generation.accepts(&Sampled::Control));
    assert!(generation.accepts(&text("aaaaaaaaaaaaaaa")));
}
