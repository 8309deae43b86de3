//! Writing a conversation down in the form that a model was trained on.

use vstd::prelude::*;

use crate::text;

verus! {

/// One message of a conversation.
#[derive(Debug)]
pub struct ChatMessage {
    /// Who speaks: `system`, `user` or `assistant`.
    pub role: String,
    /// What is said.
    pub content: String,
}

/// What a message says, and who says it.
#[verifier::ext_equal]
pub struct Message {
    pub role: Seq<char>,
    pub content: Seq<char>,
}

impl View for ChatMessage {
    type V = Message;

    open spec fn view(&self) -> Message {
        Message { role: self.role@, content: self.content@ }
    }
}

/// The messages, each taken by its view.
pub open spec fn conversation(messages: Seq<ChatMessage>) -> Seq<Message> {
    messages.map_values(|m: ChatMessage| m@)
}

impl Clone for ChatMessage {
    fn clone(&self) -> (r: Self)
        ensures
            r == *self,
    {
        ChatMessage { role: self.role.clone(), content: self.content.clone() }
    }
}

/// The prompt for a single question.
pub open spec fn prompt_text(template: Seq<char>, system: Seq<char>, user: Seq<char>) -> Seq<char> {
    if template == "qwen"@ {
        "<|im_start|>system\n"@ + system + "<|im_end|>\n<|im_start|>user\n"@ + user
            + "<|im_end|>\n<|im_start|>assistant\n"@
    } else if template == "llama"@ {
        "<|begin_of_text|><|start_header_id|>system<|end_header_id|>\n\n"@ + system
            + "<|eot_id|><|start_header_id|>user<|end_header_id|>\n\n"@ + user
            + "<|eot_id|><|start_header_id|>assistant<|end_header_id|>\n\n"@
    } else {
        "System: "@ + system + "\nUser: "@ + user + "\nAssistant: "@
    }
}

/// How the instructions to the model are written.
pub open spec fn system_part(template: Seq<char>, system: Seq<char>) -> Seq<char> {
    if template == "qwen"@ {
        "<|im_start|>system\n"@ + system + "<|im_end|>\n"@
    } else if template == "llama"@ {
        "<|begin_of_text|><|start_header_id|>system<|end_header_id|>\n\n"@ + system + "<|eot_id|>"@
    } else {
        "System: "@ + system + "\n"@
    }
}

/// How one message is written.
pub open spec fn turn(template: Seq<char>, message: Message) -> Seq<char> {
    if template == "qwen"@ {
        "<|im_start|>"@ + message.role + "\n"@ + message.content + "<|im_end|>\n"@
    } else if template == "llama"@ {
        "<|start_header_id|>"@ + message.role + "<|end_header_id|>\n\n"@ + message.content
            + "<|eot_id|>"@
    } else {
        (if message.role == "user"@ {
            "User"@
        } else {
            "Assistant"@
        }) + ": "@ + message.content + "\n"@
    }
}

/// How the messages are written, one after the other.
pub open spec fn turns(template: Seq<char>, messages: Seq<Message>) -> Seq<char>
    decreases messages.len(),
{
    if messages.len() == 0 {
        Seq::empty()
    } else {
        turns(template, messages.drop_last()) + turn(template, messages.last())
    }
}

/// What asks the model to answer.
pub open spec fn cue(template: Seq<char>) -> Seq<char> {
    if template == "qwen"@ {
        "<|im_start|>assistant\n"@
    } else if template == "llama"@ {
        "<|start_header_id|>assistant<|end_header_id|>\n\n"@
    } else {
        "Assistant: "@
    }
}

/// The conversation opens with instructions of its own.
pub open spec fn has_system(messages: Seq<Message>) -> bool {
    messages.len() > 0 && messages[0].role == "system"@
}

/// A conversation without what asks for the answer. Instructions of its own take
/// the place of the default ones.
pub open spec fn history_body(
    template: Seq<char>,
    default_system: Seq<char>,
    messages: Seq<Message>,
) -> Seq<char> {
    if has_system(messages) {
        system_part(template, messages[0].content) + turns(template, messages.skip(1))
    } else {
        system_part(template, default_system) + turns(template, messages)
    }
}

/// The prompt for a conversation.
pub open spec fn history_text(
    template: Seq<char>,
    default_system: Seq<char>,
    messages: Seq<Message>,
) -> Seq<char> {
    history_body(template, default_system, messages) + cue(template)
}

/// Writes a single question.
pub fn format_prompt(template: &str, system: &str, user: &str) -> (r: String)
    ensures
        r@ == prompt_text(template@, system@, user@),
        template@ == "qwen"@ ==> r@ == "<|im_start|>system\n"@ + system@
            + "<|im_end|>\n<|im_start|>user\n"@ + user@ + "<|im_end|>\n<|im_start|>assistant\n"@,
        template@ == "llama"@ ==> r@
            == "<|begin_of_text|><|start_header_id|>system<|end_header_id|>\n\n"@ + system@
            + "<|eot_id|><|start_header_id|>user<|end_header_id|>\n\n"@ + user@
            + "<|eot_id|><|start_header_id|>assistant<|end_header_id|>\n\n"@,
        template@ != "qwen"@ && template@ != "llama"@ ==> r@ == "System: "@ + system@ + "\nUser: "@
            + user@ + "\nAssistant: "@,
{
    let mut prompt = String::new();
    if text::same_text(template, "qwen") {
        prompt.append("<|im_start|>system\n");
        prompt.append(system);
        prompt.append("<|im_end|>\n<|im_start|>user\n");
        prompt.append(user);
        prompt.append("<|im_end|>\n<|im_start|>assistant\n");
    } else if text::same_text(template, "llama") {
        prompt.append("<|begin_of_text|><|start_header_id|>system<|end_header_id|>\n\n");
        prompt.append(system);
        prompt.append("<|eot_id|><|start_header_id|>user<|end_header_id|>\n\n");
        prompt.append(user);
        prompt.append("<|eot_id|><|start_header_id|>assistant<|end_header_id|>\n\n");
    } else {
        prompt.append("System: ");
        prompt.append(system);
        prompt.append("\nUser: ");
        prompt.append(user);
        prompt.append("\nAssistant: ");
    }
    assert(prompt@ =~= prompt_text(template@, system@, user@));
    proof {
        reveal_strlit("qwen");
        reveal_strlit("llama");
        assert("qwen"@.len() != "llama"@.len());
    }
    prompt
}

/// Appends the instructions to the model.
fn push_system(prompt: &mut String, template: &str, system: &str)
    ensures
        final(prompt)@ == old(prompt)@ + system_part(template@, system@),
{
    if text::same_text(template, "qwen") {
        prompt.append("<|im_start|>system\n");
        prompt.append(system);
        prompt.append("<|im_end|>\n");
    } else if text::same_text(template, "llama") {
        prompt.append("<|begin_of_text|><|start_header_id|>system<|end_header_id|>\n\n");
        prompt.append(system);
        prompt.append("<|eot_id|>");
    } else {
        prompt.append("System: ");
        prompt.append(system);
        prompt.append("\n");
    }
    assert(prompt@ =~= old(prompt)@ + system_part(template@, system@));
}

/// Appends one message.
fn push_turn(prompt: &mut String, template: &str, message: &ChatMessage)
    ensures
        final(prompt)@ == old(prompt)@ + turn(template@, message@),
{
    if text::same_text(template, "qwen") {
        prompt.append("<|im_start|>");
        prompt.append(message.role.as_str());
        prompt.append("\n");
        prompt.append(message.content.as_str());
        prompt.append("<|im_end|>\n");
    } else if text::same_text(template, "llama") {
        prompt.append("<|start_header_id|>");
        prompt.append(message.role.as_str());
        prompt.append("<|end_header_id|>\n\n");
        prompt.append(message.content.as_str());
        prompt.append("<|eot_id|>");
    } else {
        if text::same_text(message.role.as_str(), "user") {
            prompt.append("User");
        } else {
            prompt.append("Assistant");
        }
        prompt.append(": ");
        prompt.append(message.content.as_str());
        prompt.append("\n");
    }
    assert(prompt@ =~= old(prompt)@ + turn(template@, message@));
}

/// Appends what asks the model to answer.
fn push_cue(prompt: &mut String, template: &str)
    ensures
        final(prompt)@ == old(prompt)@ + cue(template@),
{
    if text::same_text(template, "qwen") {
        prompt.append("<|im_start|>assistant\n");
    } else if text::same_text(template, "llama") {
        prompt.append("<|start_header_id|>assistant<|end_header_id|>\n\n");
    } else {
        prompt.append("Assistant: ");
    }
}

/// Writes a conversation.
pub fn format_chat_history(
    template: &str,
    default_system: &str,
    messages: &[ChatMessage],
) -> (r: String)
    ensures
        r@ == history_text(template@, default_system@, conversation(messages@)),
{
    let mut prompt = String::new();
    let ghost all = conversation(messages@);
    let own = messages.len() > 0 && text::same_text(messages[0].role.as_str(), "system");
    let start: usize = if own {
        1
    } else {
        0
    };
    let ghost system = if own {
        all[0].content
    } else {
        default_system@
    };
    let ghost rest = all.skip(start as int);
    proof {
        assert(rest.take(0) =~= Seq::<Message>::empty());
        if !own {
            assert(rest =~= all);
        }
    }
    if own {
        push_system(&mut prompt, template, messages[0].content.as_str());
    } else {
        push_system(&mut prompt, template, default_system);
    }
    assert(prompt@ =~= system_part(template@, system) + turns(template@, rest.take(0)));
    let mut i: usize = start;
    while i < messages.len()
        invariant
            start <= i <= messages@.len(),
            all == conversation(messages@),
            rest == all.skip(start as int),
            prompt@ == system_part(template@, system) + turns(template@, rest.take(i - start)),
        decreases messages@.len() - i,
    {
        let ghost k = i - start;
        push_turn(&mut prompt, template, &messages[i]);
        proof {
            assert(rest.take(k + 1).drop_last() =~= rest.take(k));
            assert(rest.take(k + 1).last() == messages@[i as int]@);
            assert(prompt@ =~= system_part(template@, system) + turns(
                template@,
                rest.take(k + 1),
            ));
        }
        i += 1;
    }
    assert(rest.take(i - start) =~= rest);
    push_cue(&mut prompt, template);
    prompt
}

/// A conversation of one question is written like that question.
pub proof fn single_question(template: Seq<char>, system: Seq<char>, user: Seq<char>)
    ensures
        history_text(template, system, seq![Message { role: "user"@, content: user }])
            == prompt_text(template, system, user),
{
    let message = Message { role: "user"@, content: user };
    let messages = seq![message];
    reveal_strlit("user");
    reveal_strlit("system");
    assert("user"@.len() != "system"@.len());
    assert(messages.drop_last() =~= Seq::<Message>::empty());
    assert(turns(template, messages.drop_last()) == Seq::<char>::empty());
    assert(turns(template, messages) =~= turn(template, message));
    reveal_strlit("<|im_end|>\n<|im_start|>user\n");
    reveal_strlit("<|im_end|>\n");
    reveal_strlit("<|im_start|>");
    reveal_strlit("\n");
    reveal_strlit("<|im_end|>\n<|im_start|>assistant\n");
    reveal_strlit("<|im_start|>assistant\n");
    reveal_strlit("<|eot_id|><|start_header_id|>user<|end_header_id|>\n\n");
    reveal_strlit("<|eot_id|>");
    reveal_strlit("<|start_header_id|>");
    reveal_strlit("<|end_header_id|>\n\n");
    reveal_strlit("<|eot_id|><|start_header_id|>assistant<|end_header_id|>\n\n");
    reveal_strlit("<|start_header_id|>assistant<|end_header_id|>\n\n");
    reveal_strlit("\nUser: ");
    reveal_strlit("User");
    reveal_strlit(": ");
    reveal_strlit("\nAssistant: ");
    reveal_strlit("Assistant: ");
    assert("<|im_end|>\n"@ + "<|im_start|>"@ + "user"@ + "\n"@
        =~= "<|im_end|>\n<|im_start|>user\n"@);
    assert("<|im_end|>\n"@ + "<|im_start|>assistant\n"@
        =~= "<|im_end|>\n<|im_start|>assistant\n"@);
    assert("<|eot_id|>"@ + "<|start_header_id|>"@ + "user"@ + "<|end_header_id|>\n\n"@
        =~= "<|eot_id|><|start_header_id|>user<|end_header_id|>\n\n"@);
    assert("<|eot_id|>"@ + "<|start_header_id|>assistant<|end_header_id|>\n\n"@
        =~= "<|eot_id|><|start_header_id|>assistant<|end_header_id|>\n\n"@);
    assert("\n"@ + "User"@ + ": "@ =~= "\nUser: "@);
    assert("\n"@ + "Assistant: "@ =~= "\nAssistant: "@);
    assert(history_text(template, system, messages) =~= prompt_text(template, system, user));
}

/// What has been said is written the same whatever is said next: one more message
/// is written behind it.
pub proof fn history_grows_at_the_end(
    template: Seq<char>,
    default_system: Seq<char>,
    messages: Seq<Message>,
    next: Message,
)
    requires
        messages.len() > 0 || next.role != "system"@,
    ensures
        history_body(template, default_system, messages.push(next)) == history_body(
            template,
            default_system,
            messages,
        ) + turn(template, next),
{
    let more = messages.push(next);
    if has_system(messages) {
        assert(more.skip(1).drop_last() =~= messages.skip(1));
        assert(more.skip(1).last() == next);
    } else {
        assert(more.drop_last() =~= messages);
        assert(!has_system(more));
    }
    let told = if has_system(messages) {
        messages.skip(1)
    } else {
        messages
    };
    let system = if has_system(messages) {
        messages[0].content
    } else {
        default_system
    };
    assert(history_body(template, default_system, more) =~= system_part(template, system) + (turns(
        template,
        told,
    ) + turn(template, next)));
    assert(history_body(template, default_system, more) =~= history_body(
        template,
        default_system,
        messages,
    ) + turn(template, next));
}

/// Instructions in the conversation take the place of the default ones: these
/// leave no trace in the prompt.
pub proof fn own_system_prevails(
    template: Seq<char>,
    default_system: Seq<char>,
    other_default: Seq<char>,
    messages: Seq<Message>,
)
    requires
        has_system(messages),
    ensures
        history_text(template, default_system, messages) == history_text(
            template,
            other_default,
            messages,
        ),
        !has_system(messages.skip(1)) ==> history_text(template, default_system, messages)
            == history_text(template, messages[0].content, messages.skip(1)),
{
}

/// A conversation has the messages, in their order, each with its role and its
/// content as they are.
pub proof fn conversation_is_the_messages(messages: Seq<ChatMessage>, i: int)
    ensures
        conversation(messages).len() == messages.len(),
        0 <= i < messages.len() ==> conversation(messages)[i].role == messages[i].role@
            && conversation(messages)[i].content == messages[i].content@,
{
}

/// Where nothing has been said, the prompt is the default instructions between
/// their marks and what asks for the answer.
pub proof fn empty_history_in_full(template: Seq<char>, default_system: Seq<char>)
    ensures
        history_text(template, default_system, Seq::empty()) == if template == "qwen"@ {
            "<|im_start|>system\n"@ + default_system + "<|im_end|>\n"@ + "<|im_start|>assistant\n"@
        } else if template == "llama"@ {
            "<|begin_of_text|><|start_header_id|>system<|end_header_id|>\n\n"@ + default_system
                + "<|eot_id|>"@ + "<|start_header_id|>assistant<|end_header_id|>\n\n"@
        } else {
            "System: "@ + default_system + "\n"@ + "Assistant: "@
        },
{
    let none = Seq::<Message>::empty();
    assert(turns(template, none) =~= Seq::<char>::empty());
    assert(history_body(template, default_system, none) =~= system_part(template, default_system));
}

proof fn lemma_regroup(
    told: Seq<char>,
    a: Seq<char>,
    b: Seq<char>,
    c: Seq<char>,
    d: Seq<char>,
    e: Seq<char>,
    end: Seq<char>,
)
    ensures
        told + (a + b + c + d + e) + end == told + a + b + c + d + e + end,
{
    assert(told + (a + b + c + d + e) + end =~= told + a + b + c + d + e + end);
}

/// Every message is written in full, whoever speaks and whatever is said. One more
/// message adds to the prompt, in front of what asks for the answer, its role, its
/// content and the marks around them, and nothing else.
pub proof fn message_in_full(
    template: Seq<char>,
    default_system: Seq<char>,
    messages: Seq<Message>,
    next: Message,
)
    requires
        messages.len() > 0 || next.role != "system"@,
    ensures
        ({
            let before = history_text(template, default_system, messages);
            let after = history_text(template, default_system, messages.push(next));
            if template == "qwen"@ {
                let cue = "<|im_start|>assistant\n"@;
                let told = before.take(before.len() - cue.len());
                &&& before == told + cue
                &&& after == told + "<|im_start|>"@ + next.role + "\n"@ + next.content
                    + "<|im_end|>\n"@ + cue
            } else if template == "llama"@ {
                let cue = "<|start_header_id|>assistant<|end_header_id|>\n\n"@;
                let told = before.take(before.len() - cue.len());
                &&& before == told + cue
                &&& after == told + "<|start_header_id|>"@ + next.role + "<|end_header_id|>\n\n"@
                    + next.content + "<|eot_id|>"@ + cue
            } else {
                let cue = "Assistant: "@;
                let told = before.take(before.len() - cue.len());
                let speaker = if next.role == "user"@ {
                    "User"@
                } else {
                    "Assistant"@
                };
                &&& before == told + cue
                &&& after == told + speaker + ": "@ + next.content + "\n"@ + cue
            }
        }),
{
    history_grows_at_the_end(template, default_system, messages, next);
    let told = history_body(template, default_system, messages);
    let before = history_text(template, default_system, messages);
    let after = history_text(template, default_system, messages.push(next));
    assert(before.take(before.len() - cue(template).len()) =~= told);
    let end = cue(template);
    if template == "qwen"@ {
        lemma_regroup(told, "<|im_start|>"@, next.role, "\n"@, next.content, "<|im_end|>\n"@, end);
    } else if template == "llama"@ {
        lemma_regroup(
            told,
            "<|start_header_id|>"@,
            next.role,
            "<|end_header_id|>\n\n"@,
            next.content,
            "<|eot_id|>"@,
            end,
        );
    } else {
        let speaker = if next.role == "user"@ {
            "User"@
        } else {
            "Assistant"@
        };
        assert(told + (speaker + ": "@ + next.content + "\n"@) + end =~= told + speaker + ": "@
            + next.content + "\n"@ + end);
    }
    assert(after == told + turn(template, next) + end);
}

/// Instructions that open a conversation are written as the default ones would be.
pub proof fn own_system_in_full(
    template: Seq<char>,
    default_system: Seq<char>,
    content: Seq<char>,
)
    ensures
        history_text(template, default_system, seq![Message { role: "system"@, content }])
            == history_text(template, content, Seq::empty()),
{
    let messages = seq![Message { role: "system"@, content }];
    assert(messages.skip(1) =~= Seq::<Message>::empty());
}

/// The message with another content.
pub open spec fn reworded(messages: Seq<Message>, i: int, content: Seq<char>) -> Seq<Message> {
    messages.update(i, Message { role: messages[i].role, content })
}

proof fn lemma_turns_around(template: Seq<char>, messages: Seq<Message>, i: int) -> (r: (
    Seq<char>,
    Seq<char>,
))
    requires
        0 <= i < messages.len(),
    ensures
        forall|content: Seq<char>| #[trigger]
            turns(template, reworded(messages, i, content)) == r.0 + content + r.1,
    decreases messages.len(),
{
    let told = messages.drop_last();
    if i == messages.len() - 1 {
        let role = messages[i].role;
        let (opening, closing) = if template == "qwen"@ {
            ("<|im_start|>"@ + role + "\n"@, "<|im_end|>\n"@)
        } else if template == "llama"@ {
            ("<|start_header_id|>"@ + role + "<|end_header_id|>\n\n"@, "<|eot_id|>"@)
        } else {
            (
                (if role == "user"@ {
                    "User"@
                } else {
                    "Assistant"@
                }) + ": "@,
                "\n"@,
            )
        };
        let before = turns(template, told) + opening;
        assert forall|content: Seq<char>| #[trigger]
            turns(template, reworded(messages, i, content)) == before + content + closing by {
            let other = reworded(messages, i, content);
            assert(other.drop_last() =~= told);
            assert(other.last() == (Message { role, content }));
            assert(turns(template, other) =~= before + content + closing);
        }
        (before, closing)
    } else {
        let (before, after) = lemma_turns_around(template, told, i);
        let last = turn(template, messages.last());
        assert forall|content: Seq<char>| #[trigger]
            turns(template, reworded(messages, i, content)) == before + content + (after
                + last) by {
            let other = reworded(messages, i, content);
            assert(other.drop_last() =~= reworded(told, i, content));
            assert(other.last() == messages.last());
            assert(turns(template, reworded(told, i, content)) == before + content + after);
            assert(turns(template, other) =~= before + content + (after + last));
        }
        (before, after + last)
    }
}

/// The content of each message stands in the prompt as it is, and nothing else in
/// the prompt depends on it: between the same two texts there stands whatever the
/// message says.
pub proof fn content_is_verbatim(
    template: Seq<char>,
    default_system: Seq<char>,
    messages: Seq<Message>,
    i: int,
) -> (r: (Seq<char>, Seq<char>))
    requires
        0 <= i < messages.len(),
    ensures
        forall|content: Seq<char>| #[trigger]
            history_text(template, default_system, reworded(messages, i, content)) == r.0 + content
                + r.1,
        text::stands_in(
            history_text(template, default_system, messages),
            messages[i].content,
        ),
{
    let system = system_part(template, default_system);
    let end = cue(template);
    let r = if has_system(messages) && i == 0 {
        let rest = turns(template, messages.skip(1));
        let (opening, closing) = if template == "qwen"@ {
            ("<|im_start|>system\n"@, "<|im_end|>\n"@)
        } else if template == "llama"@ {
            ("<|begin_of_text|><|start_header_id|>system<|end_header_id|>\n\n"@, "<|eot_id|>"@)
        } else {
            ("System: "@, "\n"@)
        };
        let after = closing + rest + end;
        assert forall|content: Seq<char>| #[trigger]
            history_text(template, default_system, reworded(messages, i, content)) == opening
                + content + after by {
            let other = reworded(messages, i, content);
            assert(other.skip(1) =~= messages.skip(1));
            assert(history_text(template, default_system, other) =~= opening + content + after);
        }
        (opening, after)
    } else if has_system(messages) {
        let own = system_part(template, messages[0].content);
        let (before, after) = lemma_turns_around(template, messages.skip(1), i - 1);
        assert forall|content: Seq<char>| #[trigger]
            history_text(template, default_system, reworded(messages, i, content)) == (own + before)
                + content + (after + end) by {
            let other = reworded(messages, i, content);
            assert(other[0] == messages[0]);
            assert(other.skip(1) =~= reworded(messages.skip(1), i - 1, content));
            assert(turns(template, other.skip(1)) == before + content + after);
            assert(history_text(template, default_system, other) =~= (own + before) + content + (
            after + end));
        }
        (own + before, after + end)
    } else {
        let (before, after) = lemma_turns_around(template, messages, i);
        assert forall|content: Seq<char>| #[trigger]
            history_text(template, default_system, reworded(messages, i, content)) == (system
                + before) + content + (after + end) by {
            let other = reworded(messages, i, content);
            assert(other[0].role == messages[0].role);
            assert(turns(template, other) == before + content + after);
            assert(history_text(template, default_system, other) =~= (system + before) + content + (
            after + end));
        }
        (system + before, after + end)
    };
    assert(reworded(messages, i, messages[i].content) =~= messages);
    assert(history_text(template, default_system, messages) == r.0 + messages[i].content + r.1);
    r
}

/// Conversations that differ in what one message says have different prompts.
pub proof fn contents_are_told_apart(
    template: Seq<char>,
    default_system: Seq<char>,
    messages: Seq<Message>,
    i: int,
    content: Seq<char>,
)
    requires
        0 <= i < messages.len(),
        content != messages[i].content,
    ensures
        history_text(
            template,
            default_system,
            messages.update(i, Message { role: messages[i].role, content }),
        ) != history_text(template, default_system, messages),
{
    let (before, after) = content_is_verbatim(template, default_system, messages, i);
    let own = messages[i].content;
    assert(reworded(messages, i, own) =~= messages);
    let one = history_text(template, default_system, reworded(messages, i, content));
    let other = history_text(template, default_system, reworded(messages, i, own));
    if one == other {
        let k = before.len() as int;
        assert(one.len() == k + content.len() + after.len());
        assert(other.len() == k + own.len() + after.len());
        assert(one.subrange(k, k + content.len()) =~= content);
        assert(other.subrange(k, k + own.len()) =~= own);
    }
}

} // verus!
