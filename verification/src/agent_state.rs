//! The built-in memory of a workflow.

use serde_json::Value;
use vstd::hash_map::StringHashMap;
use vstd::prelude::*;
use vstd::string::*;

use crate::error::{labelled, ErrorView, LangGraphError};
use crate::names::Name;

verus! {

/// `serde_json::Value`, a JSON value. It is stored and handed out whole.
#[verifier::external_type_specification]
#[verifier::external_body]
pub struct ExValue(Value);

/// `serde_json::Error`, why a value could not be turned into JSON or back.
#[verifier::external_type_specification]
#[verifier::external_body]
pub struct ExJsonError(serde_json::Error);

/// `serde_json::Value::clone`, which serde_json derives: the clone is the same
/// JSON value.
pub assume_specification[ <Value as Clone>::clone ](value: &Value) -> (cloned: Value)
    ensures
        cloned == *value,
;

/// Values by key, each kept as JSON.
pub struct DefaultMemoryState {
    memory: StringHashMap<Value>,
}

impl View for DefaultMemoryState {
    type V = Map<Name, Value>;

    closed spec fn view(&self) -> Map<Name, Value> {
        self.memory@
    }
}

/// What a memory holds under a key.
pub open spec fn recalled(memory: Map<Name, Value>, key: Name) -> Option<Value> {
    if memory.dom().contains(key) {
        Some(memory[key])
    } else {
        None
    }
}

/// Whether `error` reports `cause` after the words of `label`.
pub open spec fn reports(error: ErrorView, label: Seq<char>, cause: serde_json::Error) -> bool {
    exists|text: String|
        {
            &&& #[trigger] to_string_from_display_ensures::<serde_json::Error>(&cause, text)
            &&& error == ErrorView::StateError(label + text@)
        }
}

impl DefaultMemoryState {
    /// A memory that holds nothing.
    pub fn new() -> (state: Self)
        ensures
            state@ == Map::<Name, Value>::empty(),
    {
        DefaultMemoryState { memory: StringHashMap::new() }
    }

    /// The value of a key, if there is one.
    pub fn get(&self, key: &str) -> (value: Option<Value>)
        ensures
            value == recalled(self@, key@),
    {
        match self.memory.get(key) {
            Some(value) => Some(value.clone()),
            None => None,
        }
    }

    /// Stores the JSON form of a value under a key, in place of the value that
    /// the key had. If the value has no JSON form, reports why and stores
    /// nothing.
    pub fn set(&mut self, key: &str, encoded: Result<Value, serde_json::Error>) -> (result: Result<
        bool,
        LangGraphError,
    >)
        ensures
            match encoded {
                Ok(value) => {
                    &&& result == Ok::<bool, LangGraphError>(true)
                    &&& final(self)@ == old(self)@.insert(key@, value)
                },
                Err(cause) => {
                    &&& result matches Err(error) && reports(
                        error@,
                        "Serialization error: "@,
                        cause,
                    )
                    &&& final(self)@ == old(self)@
                },
            },
    {
        match encoded {
            Ok(value) => {
                self.memory.insert(key.to_string(), value);
                Ok(true)
            },
            Err(cause) => Err(state_error("Serialization error: ", cause)),
        }
    }

    /// A hook for memories that can be saved. This one cannot, so nothing
    /// happens.
    pub fn snapshot(&self, _step: usize, _node_keys: Vec<String>) -> (result: Result<(), ()>)
        ensures
            result == Ok::<(), ()>(()),
    {
        Ok(())
    }
}

impl Default for DefaultMemoryState {
    fn default() -> (state: Self)
        ensures
            state@ == Map::<Name, Value>::empty(),
    {
        Self::new()
    }
}

/// What reading a key comes to: nothing if the key has no value, and else what
/// turning its JSON form back gave.
pub fn decoded<T>(found: Option<Result<T, serde_json::Error>>) -> (result: Result<
    Option<T>,
    LangGraphError,
>)
    ensures
        match found {
            None => result == Ok::<Option<T>, LangGraphError>(None),
            Some(Ok(value)) => result == Ok::<Option<T>, LangGraphError>(Some(value)),
            Some(Err(cause)) => result matches Err(error) && reports(
                error@,
                "Deserialization error: "@,
                cause,
            ),
        },
{
    match found {
        None => Ok(None),
        Some(Ok(value)) => Ok(Some(value)),
        Some(Err(cause)) => Err(state_error("Deserialization error: ", cause)),
    }
}

/// The error of a memory that could not handle a value.
fn state_error(label: &str, cause: serde_json::Error) -> (error: LangGraphError)
    ensures
        reports(error@, label@, cause),
{
    let text = cause.to_string();
    LangGraphError::StateError(labelled(label, text.as_str()))
}

/// A new memory holds nothing. A value that is stored under a key is what is
/// read there, also if the key had another value, and what is read under other
/// keys stays the same.
pub proof fn reads_give_what_was_written(
    memory: Map<Name, Value>,
    key: Name,
    value: Value,
    other: Name,
)
    ensures
        recalled(Map::empty(), key) is None,
        recalled(memory.insert(key, value), key) == Some(value),
        other != key ==> recalled(memory.insert(key, value), other) == recalled(memory, other),
{
}

/// The error of a memory that could not handle a value is one of the state. It
/// says what was attempted, then why it failed.
pub proof fn memory_errors_tell_the_cause(
    error: ErrorView,
    label: Seq<char>,
    cause: serde_json::Error,
)
    requires
        reports(error, label, cause),
    ensures
        error is StateError,
        exists|text: String|
            {
                &&& #[trigger] to_string_from_display_ensures::<serde_json::Error>(&cause, text)
                &&& error->StateError_0 == label + text@
            },
{
}

} // verus!
