//! States and transitions of a state machine diagram.

use vstd::prelude::*;
use crate::error::{FigoError, Result};
use crate::text::chars_eq;
use crate::width::{chars_of, string_from_chars};

verus! {

/// Kind of a state: a plain state, or an accepting one drawn with a
/// double border.
#[derive(Clone, Copy, Debug, PartialEq, Eq, Structural)]
pub enum StateType {
    Simple,
    Accepting,
}

/// The state type a name stands for: `simple` or `accepting`.
pub open spec fn state_type_named(s: Seq<char>) -> Option<StateType> {
    if s == seq!['s', 'i', 'm', 'p', 'l', 'e'] {
        Some(StateType::Simple)
    } else if s == seq!['a', 'c', 'c', 'e', 'p', 't', 'i', 'n', 'g'] {
        Some(StateType::Accepting)
    } else {
        None
    }
}

impl StateType {
    /// Parse the type name given for state `id`; an unknown name is
    /// `InvalidInput`.
    pub fn parse(id: &str, name: &str) -> (r: Result<StateType>)
        ensures
            match state_type_named(name@) {
                Some(t) => r == Ok::<StateType, FigoError>(t),
                None => r is Err && r->Err_0 is InvalidInput,
            },
    {
        let cs = chars_of(name);
        if chars_eq(cs.as_slice(), &['s', 'i', 'm', 'p', 'l', 'e']) {
            Ok(StateType::Simple)
        } else if chars_eq(cs.as_slice(), &['a', 'c', 'c', 'e', 'p', 't', 'i', 'n', 'g']) {
            Ok(StateType::Accepting)
        } else {
            let mut m: Vec<char> = Vec::new();
            m.extend_from_slice(&['u', 'n', 'k', 'n', 'o', 'w', 'n', ' ', 's', 't', 'a', 't', 'e', ' ', 't', 'y', 'p', 'e', ' ', '\'']);
            m.extend_from_slice(cs.as_slice());
            m.extend_from_slice(&['\'', ' ', 'f', 'o', 'r', ' ', 's', 't', 'a', 't', 'e', ' ', '\'']);
            m.extend_from_slice(chars_of(id).as_slice());
            m.push('\'');
            Err(FigoError::InvalidInput(string_from_chars(m.as_slice())))
        }
    }
}

/// A state: its identifier, its label, and its kind.
#[derive(Clone, Debug)]
pub struct StateNode {
    pub id: String,
    pub label: String,
    pub state_type: StateType,
}

/// A transition between two states, by identifier, with an optional
/// label.
#[derive(Clone, Debug)]
pub struct Transition {
    pub from: String,
    pub to: String,
    pub label: Option<String>,
}

} // verus!
