use lightningllm::console::{announce, input_mark, Notice};
use lightningllm::prompt::{format_chat_history, format_prompt, ChatMessage};
use lightningllm::session::{
    default_system, load_chat_history, read_command, ChatSession, Command,
};

fn asked(line: &str) -> Option<String> {
    match read_command(line) {
        Command::Ask(question) => Some(question),
        _ => None,
    }
}

#[test]
fn commands() {
    assert!(matches!(read_command("exit\n"), Command::Quit));
    assert!(matches!(read_command("  quit \r\n"), Command::Quit));
    assert!(matches!(read_command("\n"), Command::Skip));
    assert!(matches!(read_command(""), Command::Skip));
    assert!(matches!(read_command(" \t\u{3000}\n"), Command::Skip));
    assert_eq!(asked("  what is 2 + 2?\n"), Some("what is 2 + 2?".to_string()));
    assert_eq!(asked("Exit\n"), Some("Exit".to_string()));
    assert_eq!(asked("exit now\n"), Some("exit now".to_string()));
}

#[test]
fn white_space_is_what_unicode_says() {
    let mut found: Vec<u32> = Vec::new();
    for n in 0..=0x10ffffu32 {
        if let Some(c) = char::from_u32(n) {
            if matches!(read_command(&c.to_string()), Command::Skip) {
                found.push(n);
            }
        }
    }
    let mut expected: Vec<u32> = Vec::new();
    expected.extend(0x9..=0xd);
    expected.extend([0x20, 0x85, 0xa0, 0x1680]);
    expected.extend(0x2000..=0x200a);
    expected.extend([0x2028, 0x2029, 0x202f, 0x205f, 0x3000]);
    assert_eq!(found, expected);
}

#[test]
fn blank_history_is_no_history() {
    assert_eq!(load_chat_history(None), None);
    assert_eq!(load_chat_history(Some("".to_string())), None);
    assert_eq!(load_chat_history(Some(" \n\t".to_string())), None);
    assert_eq!(load_chat_history(Some(" [] ".to_string())), Some(" [] ".to_string()));
}

#[test]
fn kept_conversation() {
    let mut session = ChatSession::with_history("other".to_string(), None);
    assert_eq!(session.messages().len(), 0);
    let first = session.ask("What is 2+2?");
    assert_eq!(first, format_prompt("other", default_system(), "What is 2+2?"));
    assert!(session.answer("4".to_string()));
    let second = session.ask("Multiply that by 10.");
    assert_eq!(
        second,
        "System: You are a helpful reasoning assistant.\nUser: What is 2+2?\nAssistant: 4\nUser: Multiply that by 10.\nAssistant: "
    );
    let told = first.strip_suffix("Assistant: ").unwrap();
    assert_eq!(second, format!("{}Assistant: 4\nUser: Multiply that by 10.\nAssistant: ", told));
    assert!(session.answer("40".to_string()));
    let said: Vec<(&str, &str)> =
        session.messages().iter().map(|m| (m.role.as_str(), m.content.as_str())).collect();
    assert_eq!(
        said,
        vec![
            ("user", "What is 2+2?"),
            ("assistant", "4"),
            ("user", "Multiply that by 10."),
            ("assistant", "40"),
        ]
    );
}

#[test]
fn unanswered_question_stays() {
    let mut session = ChatSession::with_history("other".to_string(), None);
    session.ask("one");
    let prompt = session.ask("two");
    assert_eq!(
        prompt,
        "System: You are a helpful reasoning assistant.\nUser: one\nUser: two\nAssistant: "
    );
    assert_eq!(session.messages().len(), 2);
}

#[test]
fn restored_conversation() {
    let restored = vec![
        ChatMessage { role: "system".to_string(), content: "Rhyme.".to_string() },
        ChatMessage { role: "user".to_string(), content: "Hi".to_string() },
    ];
    let mut session = ChatSession::with_history("qwen".to_string(), Some(restored));
    let prompt = session.ask("Bye");
    assert_eq!(prompt, format_chat_history("qwen", "unused", session.messages()));
    assert_eq!(session.messages().len(), 3);
    assert_eq!(session.messages()[2].content, "Bye");
}

#[test]
fn questions_stand_alone() {
    let mut session = ChatSession::without_history("llama".to_string());
    let first = session.ask("Hi");
    assert!(!session.answer("Hello".to_string()));
    assert_eq!(session.messages().len(), 0);
    assert_eq!(session.ask("Hi"), first);
    assert_eq!(first, format_prompt("llama", "You are a helpful reasoning assistant.", "Hi"));
}

#[test]
fn notices() {
    let say = |notice: Notice| announce(false, &notice).unwrap();
    assert_eq!(say(Notice::BinaryDirectory("/opt".to_string())), "Binary directory: /opt");
    assert_eq!(say(Notice::ModelMissing), "Model file not found. Starting download...");
    assert_eq!(
        say(Notice::Downloading { url: "u".to_string(), dest: "d".to_string() }),
        "Downloading model from u to d..."
    );
    assert_eq!(say(Notice::LoadingModel("m".to_string())), "Loading model: m...");
    assert_eq!(
        say(Notice::ChatWithHistory("c.json".to_string())),
        "Starting interactive chat mode with history file: c.json. Type 'exit' to quit."
    );
    assert_eq!(say(Notice::Chat), "Starting interactive chat mode. Type 'exit' to quit.");
    assert_eq!(input_mark(false), "\n> ");
}

#[test]
fn output_only_is_silent() {
    assert_eq!(announce(true, &Notice::BinaryDirectory("/opt".to_string())), None);
    assert_eq!(announce(true, &Notice::ModelMissing), None);
    assert_eq!(announce(true, &Notice::LoadingModel("m".to_string())), None);
    assert_eq!(announce(true, &Notice::Chat), None);
    assert_eq!(announce(true, &Notice::ChatWithHistory("c.json".to_string())), None);
    assert_eq!(
        announce(true, &Notice::Downloading { url: "u".to_string(), dest: "d".to_string() }),
        None
    );
    assert_eq!(input_mark(true), "");
}
