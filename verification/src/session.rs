//! Carrying a conversation on.

use vstd::prelude::*;

use crate::prompt;
use crate::prompt::ChatMessage;
use crate::prompt::Message;
use crate::text;

verus! {

/// The character has the Unicode property `White_Space`.
pub open spec fn is_white_space(c: char) -> bool {
    ||| '\u{9}' <= c <= '\u{d}'
    ||| c == ' '
    ||| c == '\u{85}'
    ||| c == '\u{a0}'
    ||| c == '\u{1680}'
    ||| '\u{2000}' <= c <= '\u{200a}'
    ||| c == '\u{2028}'
    ||| c == '\u{2029}'
    ||| c == '\u{202f}'
    ||| c == '\u{205f}'
    ||| c == '\u{3000}'
}

/// `s` without white space in front.
pub open spec fn without_leading_space(s: Seq<char>) -> Seq<char>
    decreases s.len(),
{
    if s.len() > 0 && is_white_space(s.first()) {
        without_leading_space(s.drop_first())
    } else {
        s
    }
}

/// `s` without white space at the end.
pub open spec fn without_trailing_space(s: Seq<char>) -> Seq<char>
    decreases s.len(),
{
    if s.len() > 0 && is_white_space(s.last()) {
        without_trailing_space(s.drop_last())
    } else {
        s
    }
}

/// `s` without white space on either side.
pub open spec fn trimmed(s: Seq<char>) -> Seq<char> {
    without_trailing_space(without_leading_space(s))
}

/// `str::trim` takes away the characters with the Unicode property `White_Space`
/// on either side of a text, and nothing else.
pub assume_specification[ str::trim ](s: &str) -> (r: &str)
    ensures
        r@ == trimmed(s@),
;

/// What a line of input asks for.
#[derive(Debug)]
pub enum Command {
    /// To end the conversation.
    Quit,
    /// Nothing.
    Skip,
    /// An answer to this question.
    Ask(String),
}

/// Reads a line of input. White space around it does not count.
pub fn read_command(line: &str) -> (r: Command)
    ensures
        match r {
            Command::Quit => trimmed(line@) == "exit"@ || trimmed(line@) == "quit"@,
            Command::Skip => trimmed(line@) == Seq::<char>::empty(),
            Command::Ask(question) => {
                &&& question@ == trimmed(line@)
                &&& question@ != "exit"@
                &&& question@ != "quit"@
                &&& question@ != Seq::<char>::empty()
            },
        },
{
    let input = line.trim();
    if text::same_text(input, "exit") || text::same_text(input, "quit") {
        Command::Quit
    } else if input.is_empty() {
        assert(input@ =~= Seq::<char>::empty());
        Command::Skip
    } else {
        Command::Ask(input.to_owned())
    }
}

/// What there is to restore a conversation from: the content of its file, if the
/// file is there and holds more than white space.
pub fn load_chat_history(content: Option<String>) -> (r: Option<String>)
    ensures
        r == match content {
            Some(s) => if trimmed(s@).len() == 0 {
                None
            } else {
                Some(s)
            },
            None => None,
        },
{
    match content {
        Some(s) => if s.as_str().trim().is_empty() {
            None
        } else {
            Some(s)
        },
        None => None,
    }
}

/// The instructions to a model that gets no others.
pub fn default_system() -> (r: &'static str)
    ensures
        r@ == "You are a helpful reasoning assistant."@,
{
    "You are a helpful reasoning assistant."
}

/// A conversation, and what its prompts are made of.
#[verifier::ext_equal]
pub struct SessionState {
    /// The prompt template.
    pub template: Seq<char>,
    /// What has been said, where it is kept.
    pub history: Option<Seq<Message>>,
}

/// A question, as a message.
pub open spec fn user_message(question: Seq<char>) -> Message {
    Message { role: "user"@, content: question }
}

/// An answer, as a message.
pub open spec fn assistant_message(reply: Seq<char>) -> Message {
    Message { role: "assistant"@, content: reply }
}

impl SessionState {
    /// The conversation once the question has been asked.
    pub open spec fn asked(self, question: Seq<char>) -> SessionState {
        match self.history {
            Some(history) => SessionState {
                history: Some(history.push(user_message(question))),
                ..self
            },
            None => self,
        }
    }

    /// The prompt for the question.
    pub open spec fn prompt(self, question: Seq<char>) -> Seq<char> {
        let system = "You are a helpful reasoning assistant."@;
        match self.asked(question).history {
            Some(history) => prompt::history_text(self.template, system, history),
            None => prompt::prompt_text(self.template, system, question),
        }
    }

    /// The conversation once the answer has been given.
    pub open spec fn answered(self, reply: Seq<char>) -> SessionState {
        match self.history {
            Some(history) => SessionState {
                history: Some(history.push(assistant_message(reply))),
                ..self
            },
            None => self,
        }
    }
}

/// A conversation with a model. It may be kept or not: where it is not, every
/// question stands alone.
pub struct ChatSession {
    template: String,
    history: Option<Vec<ChatMessage>>,
}

impl View for ChatSession {
    type V = SessionState;

    closed spec fn view(&self) -> SessionState {
        SessionState {
            template: self.template@,
            history: match self.history {
                Some(messages) => Some(prompt::conversation(messages@)),
                None => None,
            },
        }
    }
}

impl ChatSession {
    /// Questions that stand alone.
    pub fn without_history(template: String) -> (r: Self)
        ensures
            r@ == (SessionState { template: template@, history: None }),
    {
        ChatSession { template, history: None }
    }

    /// A conversation that is kept, from what was restored of it; where nothing
    /// could be restored it begins anew.
    pub fn with_history(template: String, restored: Option<Vec<ChatMessage>>) -> (r: Self)
        ensures
            r@ == (SessionState {
                template: template@,
                history: Some(
                    match restored {
                        Some(messages) => prompt::conversation(messages@),
                        None => Seq::empty(),
                    },
                ),
            }),
            r@.history is Some,
            match restored {
                Some(messages) => {
                    &&& r@.history->0.len() == messages@.len()
                    &&& forall|i: int|
                        0 <= i < messages@.len() ==> {
                            &&& (#[trigger] r@.history->0[i]).role == messages@[i].role@
                            &&& r@.history->0[i].content == messages@[i].content@
                        }
                },
                None => r@.history->0.len() == 0,
            },
    {
        let messages: Vec<ChatMessage> = match restored {
            Some(messages) => messages,
            None => Vec::new(),
        };
        let r = ChatSession { template, history: Some(messages) };
        assert(r@.history->0 =~= match restored {
            Some(messages) => prompt::conversation(messages@),
            None => Seq::empty(),
        });
        r
    }

    /// Asks a question: notes it down, where the conversation is kept, and gives
    /// the prompt for it.
    pub fn ask(&mut self, question: &str) -> (r: String)
        ensures
            r@ == old(self)@.prompt(question@),
            final(self)@ == old(self)@.asked(question@),
            final(self)@.template == old(self)@.template,
            match old(self)@.history {
                Some(history) => {
                    &&& final(self)@.history is Some
                    &&& final(self)@.history->0.len() == history.len() + 1
                    &&& final(self)@.history->0.drop_last() == history
                    &&& final(self)@.history->0.last().role == "user"@
                    &&& final(self)@.history->0.last().content == question@
                    &&& r@ == prompt::history_text(
                        old(self)@.template,
                        "You are a helpful reasoning assistant."@,
                        final(self)@.history->0,
                    )
                },
                None => {
                    &&& final(self)@.history is None
                    &&& r@ == prompt::prompt_text(
                        old(self)@.template,
                        "You are a helpful reasoning assistant."@,
                        question@,
                    )
                },
            },
    {
        match self.history.take() {
            Some(mut messages) => {
                let ghost before = messages@;
                messages.push(
                    ChatMessage { role: "user".to_owned(), content: question.to_owned() },
                );
                assert(prompt::conversation(messages@) =~= prompt::conversation(before).push(
                    user_message(question@),
                ));
                let text = prompt::format_chat_history(
                    self.template.as_str(),
                    default_system(),
                    messages.as_slice(),
                );
                self.history = Some(messages);
                text
            },
            None => {
                prompt::format_prompt(self.template.as_str(), default_system(), question)
            },
        }
    }

    /// Takes note of the answer, where the conversation is kept. Says whether there
    /// is something to be saved.
    pub fn answer(&mut self, reply: String) -> (r: bool)
        ensures
            r == (old(self)@.history is Some),
            final(self)@ == old(self)@.answered(reply@),
            final(self)@.template == old(self)@.template,
            match old(self)@.history {
                Some(history) => {
                    &&& final(self)@.history is Some
                    &&& final(self)@.history->0.len() == history.len() + 1
                    &&& final(self)@.history->0.drop_last() == history
                    &&& final(self)@.history->0.last().role == "assistant"@
                    &&& final(self)@.history->0.last().content == reply@
                },
                None => final(self)@.history is None,
            },
    {
        match self.history.take() {
            Some(mut messages) => {
                let ghost before = messages@;
                let ghost said = reply@;
                messages.push(ChatMessage { role: "assistant".to_owned(), content: reply });
                assert(prompt::conversation(messages@) =~= prompt::conversation(before).push(
                    assistant_message(said),
                ));
                self.history = Some(messages);
                true
            },
            None => false,
        }
    }

    /// What has been said so far: nothing where the conversation is not kept.
    pub fn messages(&self) -> (r: &[ChatMessage])
        ensures
            prompt::conversation(r@) == match self@.history {
                Some(history) => history,
                None => Seq::empty(),
            },
            r@.len() == match self@.history {
                Some(history) => history.len(),
                None => 0,
            },
            forall|i: int|
                0 <= i < r@.len() ==> {
                    &&& (#[trigger] r@[i]).role@ == self@.history->0[i].role
                    &&& r@[i].content@ == self@.history->0[i].content
                },
    {
        match &self.history {
            Some(messages) => messages.as_slice(),
            None => {
                let none: &[ChatMessage] = &[];
                assert(prompt::conversation(none@) =~= Seq::empty());
                none
            },
        }
    }
}

/// A question and its answer are put behind what has been said, which stays as it
/// was. A question that got no answer stays too.
pub proof fn turns_are_appended(
    session: SessionState,
    history: Seq<Message>,
    question: Seq<char>,
    reply: Seq<char>,
)
    requires
        session.history == Some(history),
    ensures
        session.asked(question).history == Some(history + seq![user_message(question)]),
        session.asked(question).answered(reply).history == Some(
            history + seq![user_message(question), assistant_message(reply)],
        ),
        session.asked(question).answered(reply).template == session.template,
{
    assert(history.push(user_message(question)) =~= history + seq![user_message(question)]);
    assert(history.push(user_message(question)).push(assistant_message(reply)) =~= history + seq![
        user_message(question),
        assistant_message(reply),
    ]);
}

/// An answer is kept whole: it is the content of the last message, and the model is
/// who says it. What was said before stays as it was.
pub proof fn answer_is_kept_whole(session: SessionState, reply: Seq<char>)
    requires
        session.history is Some,
    ensures
        session.answered(reply).template == session.template,
        session.answered(reply).history is Some,
        session.answered(reply).history->0.len() == session.history->0.len() + 1,
        session.answered(reply).history->0.last().role == "assistant"@,
        session.answered(reply).history->0.last().content == reply,
        forall|i: int|
            0 <= i < session.history->0.len() ==> #[trigger] session.answered(reply).history->0[i]
                == session.history->0[i],
{
}

/// A question is kept whole: it is the content of the last message, and the user is
/// who says it. What was said before stays as it was, and the prompt is that of the
/// conversation up to the question.
pub proof fn question_is_kept_whole(session: SessionState, question: Seq<char>)
    requires
        session.history is Some,
    ensures
        session.asked(question).template == session.template,
        session.asked(question).history is Some,
        session.asked(question).history->0.len() == session.history->0.len() + 1,
        session.asked(question).history->0.last().role == "user"@,
        session.asked(question).history->0.last().content == question,
        forall|i: int|
            0 <= i < session.history->0.len() ==> #[trigger] session.asked(question).history->0[i]
                == session.history->0[i],
        session.prompt(question) == prompt::history_text(
            session.template,
            "You are a helpful reasoning assistant."@,
            session.asked(question).history->0,
        ),
        text::stands_in(session.prompt(question), question),
{
    let history = session.asked(question).history->0;
    let (_, _) = prompt::content_is_verbatim(
        session.template,
        "You are a helpful reasoning assistant."@,
        history,
        history.len() - 1,
    );
}

/// What the model answered stands in every later prompt as it was given, whatever is
/// asked next.
pub proof fn answer_stands_in_the_next_prompt(
    session: SessionState,
    reply: Seq<char>,
    next: Seq<char>,
)
    requires
        session.history is Some,
    ensures
        text::stands_in(session.answered(reply).prompt(next), reply),
{
    let answered = session.answered(reply);
    answer_is_kept_whole(session, reply);
    question_is_kept_whole(answered, next);
    let history = answered.asked(next).history->0;
    let i = session.history->0.len() as int;
    assert(history[i] == answered.history->0[i]);
    let (_, _) = prompt::content_is_verbatim(
        session.template,
        "You are a helpful reasoning assistant."@,
        history,
        i,
    );
}

proof fn lemma_leading(space: Seq<char>, rest: Seq<char>)
    requires
        forall|i: int| 0 <= i < space.len() ==> is_white_space(#[trigger] space[i]),
        rest.len() > 0 ==> !is_white_space(rest.first()),
    ensures
        without_leading_space(space + rest) == rest,
    decreases space.len(),
{
    let s = space + rest;
    if space.len() == 0 {
        assert(s =~= rest);
    } else {
        assert(s.first() == space[0]);
        assert(s.drop_first() =~= space.drop_first() + rest);
        lemma_leading(space.drop_first(), rest);
    }
}

proof fn lemma_trailing(rest: Seq<char>, space: Seq<char>)
    requires
        forall|i: int| 0 <= i < space.len() ==> is_white_space(#[trigger] space[i]),
        rest.len() > 0 ==> !is_white_space(rest.last()),
    ensures
        without_trailing_space(rest + space) == rest,
    decreases space.len(),
{
    let s = rest + space;
    if space.len() == 0 {
        assert(s =~= rest);
    } else {
        assert(s.last() == space.last());
        assert(s.drop_last() =~= rest + space.drop_last());
        lemma_trailing(rest, space.drop_last());
    }
}

/// White space on either side of a text is taken away, and nothing of the text
/// between.
pub proof fn surrounding_space_is_taken_away(
    before: Seq<char>,
    words: Seq<char>,
    after: Seq<char>,
)
    requires
        forall|i: int| 0 <= i < before.len() ==> is_white_space(#[trigger] before[i]),
        forall|i: int| 0 <= i < after.len() ==> is_white_space(#[trigger] after[i]),
        words.len() > 0 ==> !is_white_space(words.first()) && !is_white_space(words.last()),
    ensures
        trimmed(before + words + after) == words,
{
    if words.len() == 0 {
        let none = Seq::<char>::empty();
        let space = before + after;
        assert(before + words + after =~= space + none);
        lemma_leading(space, none);
        assert(words =~= none);
    } else {
        assert(before + words + after =~= before + (words + after));
        lemma_leading(before, words + after);
        lemma_trailing(words, after);
    }
}

/// A conversation that is not kept leaves no trace: the next prompt is the same
/// whatever was asked and answered before.
pub proof fn questions_stand_alone(
    session: SessionState,
    question: Seq<char>,
    reply: Seq<char>,
    next: Seq<char>,
)
    requires
        session.history is None,
    ensures
        session.asked(question).answered(reply) == session,
        session.asked(question).answered(reply).prompt(next) == session.prompt(next),
{
}

/// The first question of a conversation gets the prompt that it would get alone.
pub proof fn first_question(template: Seq<char>, question: Seq<char>)
    ensures
        (SessionState { template, history: Some(Seq::empty()) }).prompt(question)
            == (SessionState { template, history: None }).prompt(question),
{
    prompt::single_question(template, "You are a helpful reasoning assistant."@, question);
    assert(Seq::<Message>::empty().push(user_message(question)) =~= seq![user_message(question)]);
}

/// The prompt for the next question begins with all that was in the prompt before,
/// up to what asked for the answer, and then has the answer and the question.
pub proof fn prompts_grow_at_the_end(
    session: SessionState,
    history: Seq<Message>,
    question: Seq<char>,
    reply: Seq<char>,
    next: Seq<char>,
)
    requires
        session.history == Some(history),
    ensures
        ({
            let t = session.template;
            exists|told: Seq<char>|
                #![trigger told + prompt::cue(t)]
                {
                    &&& session.prompt(question) == told + prompt::cue(t)
                    &&& session.asked(question).answered(reply).prompt(next) == told
                        + prompt::turn(t, assistant_message(reply))
                        + prompt::turn(t, user_message(next)) + prompt::cue(t)
                }
        }),
{
    let t = session.template;
    let system = "You are a helpful reasoning assistant."@;
    let first = history.push(user_message(question));
    let second = first.push(assistant_message(reply));
    let told = prompt::history_body(t, system, first);
    prompt::history_grows_at_the_end(t, system, first, assistant_message(reply));
    prompt::history_grows_at_the_end(t, system, second, user_message(next));
    assert(session.prompt(question) == told + prompt::cue(t));
}

} // verus!
