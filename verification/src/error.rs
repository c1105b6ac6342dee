//! The errors of the workflow engine.

use vstd::prelude::*;
use vstd::string::*;

use crate::names::Name;

verus! {

/// What can go wrong while a workflow is built or run. Each variant carries a
/// message.
#[derive(Debug)]
pub enum LangGraphError {
    /// A node failed.
    NodeError(String),
    /// Reading or writing the state failed.
    StateError(String),
    /// The graph breaks a structural rule, or the run came to a dead end.
    GraphError(String),
    /// A name that the run was sent to is not part of the graph.
    NotFound(String),
    /// An operation took longer than it may.
    Timeout(String),
    /// All attempts at an operation failed.
    RetryExhausted(String),
}

/// A [`LangGraphError`] as contracts see it.
pub enum ErrorView {
    NodeError(Seq<char>),
    StateError(Seq<char>),
    GraphError(Seq<char>),
    NotFound(Seq<char>),
    Timeout(Seq<char>),
    RetryExhausted(Seq<char>),
}

impl View for LangGraphError {
    type V = ErrorView;

    open spec fn view(&self) -> ErrorView {
        match self {
            LangGraphError::NodeError(msg) => ErrorView::NodeError(msg@),
            LangGraphError::StateError(msg) => ErrorView::StateError(msg@),
            LangGraphError::GraphError(msg) => ErrorView::GraphError(msg@),
            LangGraphError::NotFound(msg) => ErrorView::NotFound(msg@),
            LangGraphError::Timeout(msg) => ErrorView::Timeout(msg@),
            LangGraphError::RetryExhausted(msg) => ErrorView::RetryExhausted(msg@),
        }
    }
}

impl ErrorView {
    /// The words that say which kind of error it is.
    pub open spec fn label(self) -> Seq<char> {
        match self {
            ErrorView::NodeError(_) => "Node error: "@,
            ErrorView::StateError(_) => "State error: "@,
            ErrorView::GraphError(_) => "Graph error: "@,
            ErrorView::NotFound(_) => "Not found: "@,
            ErrorView::Timeout(_) => "Timeout: "@,
            ErrorView::RetryExhausted(_) => "Retry exhausted: "@,
        }
    }

    /// The message that the error carries.
    pub open spec fn message(self) -> Seq<char> {
        match self {
            ErrorView::NodeError(msg) => msg,
            ErrorView::StateError(msg) => msg,
            ErrorView::GraphError(msg) => msg,
            ErrorView::NotFound(msg) => msg,
            ErrorView::Timeout(msg) => msg,
            ErrorView::RetryExhausted(msg) => msg,
        }
    }
}

/// The view of an outcome: the error, or nothing.
pub open spec fn outcome_view(outcome: Result<(), LangGraphError>) -> Result<(), ErrorView> {
    match outcome {
        Ok(_) => Ok(()),
        Err(e) => Err(e@),
    }
}

impl LangGraphError {
    /// The error as text: its kind, then its message.
    pub fn to_string(&self) -> (text: String)
        ensures
            text@ == self@.label() + self@.message(),
    {
        match self {
            LangGraphError::NodeError(msg) => labelled("Node error: ", msg.as_str()),
            LangGraphError::StateError(msg) => labelled("State error: ", msg.as_str()),
            LangGraphError::GraphError(msg) => labelled("Graph error: ", msg.as_str()),
            LangGraphError::NotFound(msg) => labelled("Not found: ", msg.as_str()),
            LangGraphError::Timeout(msg) => labelled("Timeout: ", msg.as_str()),
            LangGraphError::RetryExhausted(msg) => labelled("Retry exhausted: ", msg.as_str()),
        }
    }
}

/// A label followed by a message.
pub fn labelled(label: &str, msg: &str) -> (text: String)
    ensures
        text@ == label@ + msg@,
{
    let mut text = label.to_string();
    text.append(msg);
    text
}

/// A name between two pieces of text.
pub open spec fn quoted_text(before: Seq<char>, name: Name, after: Seq<char>) -> Seq<char> {
    before + name + after
}

/// Puts a name between two pieces of text.
pub fn quoted(before: &str, name: &str, after: &str) -> (text: String)
    ensures
        text@ == quoted_text(before@, name@, after@),
{
    let mut text = labelled(before, name);
    text.append(after);
    text
}

/// A message on its own is the message of a node that failed.
impl From<String> for LangGraphError {
    fn from(msg: String) -> (error: Self)
        ensures
            error@ == ErrorView::NodeError(msg@),
    {
        LangGraphError::NodeError(msg)
    }
}

impl vstd::std_specs::convert::FromSpecImpl<String> for LangGraphError {
    open spec fn obeys_from_spec() -> bool {
        true
    }

    open spec fn from_spec(msg: String) -> Self {
        LangGraphError::NodeError(msg)
    }
}

/// A message on its own is the message of a node that failed.
impl<'a> From<&'a str> for LangGraphError {
    fn from(msg: &'a str) -> (error: Self)
        ensures
            error@ == ErrorView::NodeError(msg@),
    {
        LangGraphError::NodeError(msg.to_string())
    }
}

/// Which of the strings with the text of `msg` comes out is left open here: the
/// contract of `from` itself says what its text is.
impl<'a> vstd::std_specs::convert::FromSpecImpl<&'a str> for LangGraphError {
    open spec fn obeys_from_spec() -> bool {
        false
    }

    open spec fn from_spec(msg: &'a str) -> Self {
        LangGraphError::NodeError(choose|text: String| text@ == msg@)
    }
}

/// The text of an error is the words of its kind, then its message.
pub proof fn errors_tell_their_kind(error: LangGraphError)
    ensures
        error@.label() + error@.message() == match error {
            LangGraphError::NodeError(msg) => "Node error: "@ + msg@,
            LangGraphError::StateError(msg) => "State error: "@ + msg@,
            LangGraphError::GraphError(msg) => "Graph error: "@ + msg@,
            LangGraphError::NotFound(msg) => "Not found: "@ + msg@,
            LangGraphError::Timeout(msg) => "Timeout: "@ + msg@,
            LangGraphError::RetryExhausted(msg) => "Retry exhausted: "@ + msg@,
        },
{
}

/// Contracts see an error as what it is: its kind and its message, and nothing
/// else.
pub proof fn errors_are_seen_as_they_are(error: LangGraphError)
    ensures
        match (error, error@) {
            (LangGraphError::NodeError(msg), ErrorView::NodeError(text)) => text == msg@,
            (LangGraphError::StateError(msg), ErrorView::StateError(text)) => text == msg@,
            (LangGraphError::GraphError(msg), ErrorView::GraphError(text)) => text == msg@,
            (LangGraphError::NotFound(msg), ErrorView::NotFound(text)) => text == msg@,
            (LangGraphError::Timeout(msg), ErrorView::Timeout(text)) => text == msg@,
            (LangGraphError::RetryExhausted(msg), ErrorView::RetryExhausted(text)) => text == msg@,
            _ => false,
        },
        outcome_view(Ok(())) is Ok,
        outcome_view(Err(error)) == Err::<(), ErrorView>(error@),
{
}

} // verus!
