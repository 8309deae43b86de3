//! What the program says besides the model's answer.

use vstd::prelude::*;

use crate::text;

verus! {

/// Something that is said while a run is prepared.
#[derive(Debug)]
pub enum Notice {
    /// Where the program and its files lie.
    BinaryDirectory(String),
    /// The model file is not there yet.
    ModelMissing,
    /// The model file is being downloaded.
    Downloading { url: String, dest: String },
    /// The model is being loaded.
    LoadingModel(String),
    /// A conversation that is kept in a file begins.
    ChatWithHistory(String),
    /// A conversation that is not kept begins.
    Chat,
}

/// A notice in words.
pub open spec fn notice_text(notice: Notice) -> Seq<char> {
    match notice {
        Notice::BinaryDirectory(dir) => "Binary directory: "@ + dir@,
        Notice::ModelMissing => "Model file not found. Starting download..."@,
        Notice::Downloading { url, dest } => "Downloading model from "@ + url@ + " to "@ + dest@
            + "..."@,
        Notice::LoadingModel(name) => "Loading model: "@ + name@ + "..."@,
        Notice::ChatWithHistory(path) => "Starting interactive chat mode with history file: "@
            + path@ + ". Type 'exit' to quit."@,
        Notice::Chat => "Starting interactive chat mode. Type 'exit' to quit."@,
    }
}

/// A notice in words.
fn write_notice(notice: &Notice) -> (r: String)
    ensures
        r@ == notice_text(*notice),
{
    let mut text = String::new();
    match notice {
        Notice::BinaryDirectory(dir) => {
            text.append("Binary directory: ");
            text.append(dir.as_str());
        },
        Notice::ModelMissing => {
            text.append("Model file not found. Starting download...");
        },
        Notice::Downloading { url, dest } => {
            text.append("Downloading model from ");
            text.append(url.as_str());
            text.append(" to ");
            text.append(dest.as_str());
            text.append("...");
        },
        Notice::LoadingModel(name) => {
            text.append("Loading model: ");
            text.append(name.as_str());
            text.append("...");
        },
        Notice::ChatWithHistory(path) => {
            text.append("Starting interactive chat mode with history file: ");
            text.append(path.as_str());
            text.append(". Type 'exit' to quit.");
        },
        Notice::Chat => {
            text.append("Starting interactive chat mode. Type 'exit' to quit.");
        },
    }
    assert(text@ =~= notice_text(*notice));
    text
}

/// What is printed of a notice: nothing where only the model's answer is wanted.
pub fn announce(output_only: bool, notice: &Notice) -> (r: Option<String>)
    ensures
        match r {
            Some(text) => !output_only && text@ == notice_text(*notice),
            None => output_only,
        },
        r matches Some(text) ==> match *notice {
            Notice::BinaryDirectory(dir) => text@ == "Binary directory: "@ + dir@,
            Notice::ModelMissing => text@ == "Model file not found. Starting download..."@,
            Notice::Downloading { url, dest } => text@ == "Downloading model from "@ + url@
                + " to "@ + dest@ + "..."@,
            Notice::LoadingModel(name) => text@ == "Loading model: "@ + name@ + "..."@,
            Notice::ChatWithHistory(path) => text@
                == "Starting interactive chat mode with history file: "@ + path@
                + ". Type 'exit' to quit."@,
            Notice::Chat => text@ == "Starting interactive chat mode. Type 'exit' to quit."@,
        },
{
    if output_only {
        None
    } else {
        Some(write_notice(notice))
    }
}

/// What invites the next line of input: nothing where only the model's answer is
/// wanted.
pub fn input_mark(output_only: bool) -> (r: &'static str)
    ensures
        r@ == if output_only {
            ""@
        } else {
            "\n> "@
        },
{
    if output_only {
        ""
    } else {
        "\n> "
    }
}

/// A notice names what it is about: the directory, the address and the file, the
/// model, or the history file stands in it as it is.
pub proof fn notice_names_its_subject(notice: Notice)
    ensures
        match notice {
            Notice::BinaryDirectory(dir) => text::stands_in(notice_text(notice), dir@),
            Notice::Downloading { url, dest } => text::stands_in(notice_text(notice), url@)
                && text::stands_in(notice_text(notice), dest@),
            Notice::LoadingModel(name) => text::stands_in(notice_text(notice), name@),
            Notice::ChatWithHistory(path) => text::stands_in(notice_text(notice), path@),
            _ => true,
        },
{
    let said = notice_text(notice);
    match notice {
        Notice::BinaryDirectory(dir) => {
            assert(said =~= "Binary directory: "@ + dir@ + Seq::<char>::empty());
        },
        Notice::Downloading { url, dest } => {
            assert(said =~= "Downloading model from "@ + url@ + (" to "@ + dest@ + "..."@));
            assert(said =~= ("Downloading model from "@ + url@ + " to "@) + dest@ + "..."@);
        },
        Notice::LoadingModel(name) => {
            assert(said =~= "Loading model: "@ + name@ + "..."@);
        },
        Notice::ChatWithHistory(path) => {
            assert(said =~= "Starting interactive chat mode with history file: "@ + path@
                + ". Type 'exit' to quit."@);
        },
        _ => {},
    }
}

} // verus!
