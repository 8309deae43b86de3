use lightningllm::prompt::{format_chat_history, format_prompt, ChatMessage};

fn message(role: &str, content: &str) -> ChatMessage {
    ChatMessage { role: role.to_string(), content: content.to_string() }
}

#[test]
fn qwen_prompt() {
    assert_eq!(
        format_prompt("qwen", "Be brief.", "Hi"),
        "<|im_start|>system\nBe brief.<|im_end|>\n<|im_start|>user\nHi<|im_end|>\n<|im_start|>assistant\n"
    );
}

#[test]
fn llama_prompt() {
    assert_eq!(
        format_prompt("llama", "Be brief.", "Hi"),
        "<|begin_of_text|><|start_header_id|>system<|end_header_id|>\n\nBe brief.<|eot_id|><|start_header_id|>user<|end_header_id|>\n\nHi<|eot_id|><|start_header_id|>assistant<|end_header_id|>\n\n"
    );
}

#[test]
fn plain_prompt() {
    assert_eq!(format_prompt("other", "Be brief.", "Hi"), "System: Be brief.\nUser: Hi\nAssistant: ");
    assert_eq!(format_prompt("", "", ""), "System: \nUser: \nAssistant: ");
    assert_eq!(format_prompt("Qwen", "é", "ü"), "System: é\nUser: ü\nAssistant: ");
}

#[test]
fn qwen_history() {
    let messages = vec![message("user", "Hi"), message("assistant", "Hello"), message("user", "Bye")];
    assert_eq!(
        format_chat_history("qwen", "Be brief.", &messages),
        "<|im_start|>system\nBe brief.<|im_end|>\n<|im_start|>user\nHi<|im_end|>\n<|im_start|>assistant\nHello<|im_end|>\n<|im_start|>user\nBye<|im_end|>\n<|im_start|>assistant\n"
    );
}

#[test]
fn llama_history() {
    let messages = vec![message("user", "Hi"), message("assistant", "Hello")];
    assert_eq!(
        format_chat_history("llama", "Be brief.", &messages),
        "<|begin_of_text|><|start_header_id|>system<|end_header_id|>\n\nBe brief.<|eot_id|><|start_header_id|>user<|end_header_id|>\n\nHi<|eot_id|><|start_header_id|>assistant<|end_header_id|>\n\nHello<|eot_id|><|start_header_id|>assistant<|end_header_id|>\n\n"
    );
}

#[test]
fn plain_history() {
    let messages = vec![message("user", "Hi"), message("assistant", "Hello"), message("tool", "42")];
    assert_eq!(
        format_chat_history("other", "Be brief.", &messages),
        "System: Be brief.\nUser: Hi\nAssistant: Hello\nAssistant: 42\nAssistant: "
    );
    assert_eq!(format_chat_history("other", "Be brief.", &[]), "System: Be brief.\nAssistant: ");
}

#[test]
fn system_message_in_front_takes_the_place_of_the_default() {
    let messages = vec![message("system", "Rhyme."), message("user", "Hi")];
    assert_eq!(
        format_chat_history("other", "Be brief.", &messages),
        "System: Rhyme.\nUser: Hi\nAssistant: "
    );
    assert_eq!(
        format_chat_history("other", "Be long.", &messages),
        format_chat_history("other", "Rhyme.", &messages[1..])
    );
}

#[test]
fn system_message_further_on_is_a_message() {
    let messages = vec![message("user", "Hi"), message("system", "Rhyme.")];
    assert_eq!(
        format_chat_history("qwen", "Be brief.", &messages),
        "<|im_start|>system\nBe brief.<|im_end|>\n<|im_start|>user\nHi<|im_end|>\n<|im_start|>system\nRhyme.<|im_end|>\n<|im_start|>assistant\n"
    );
}

#[test]
fn single_question_is_written_the_same_in_a_history() {
    for template in ["qwen", "llama", "other"] {
        assert_eq!(
            format_chat_history(template, "Be brief.", &[message("user", "Hi")]),
            format_prompt(template, "Be brief.", "Hi")
        );
    }
}

#[test]
fn history_grows_at_the_end() {
    let one = vec![message("user", "Hi")];
    let two = vec![message("user", "Hi"), message("assistant", "Hello")];
    let cue = "Assistant: ";
    let short = format_chat_history("other", "Be brief.", &one);
    let long = format_chat_history("other", "Be brief.", &two);
    let told = short.strip_suffix(cue).unwrap();
    assert_eq!(long, format!("{}Assistant: Hello\n{}", told, cue));
}

#[test]
fn clone_keeps_a_message() {
    let a = message("user", "Hi");
    let b = a.clone();
    assert_eq!(b.role, "user");
    assert_eq!(b.content, "Hi");
}
