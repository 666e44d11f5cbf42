//! What a request may do: subscribe to and publish on which topics.

use vstd::prelude::*;
use crate::text::str_eq;

verus! {

/// Whether `value` is among the strings of `s`.
pub open spec fn contains_str(s: Seq<String>, value: Seq<char>) -> bool {
    exists|i: int| 0 <= i < s.len() && (#[trigger] s[i])@ == value
}

fn slice_contains(s: &[String], value: &str) -> (r: bool)
    ensures
        r == contains_str(s@, value@),
{
    let mut i: usize = 0;
    while i < s.len()
        invariant
            i <= s@.len(),
            forall|j: int| 0 <= j < i ==> (#[trigger] s@[j])@ != value@,
        decreases s@.len() - i,
    {
        if str_eq(s[i].as_str(), value) {
            return true;
        }
        i = i + 1;
    }
    false
}

/// The topics a request may read and write, or every topic for an admin.
pub struct Capabilities {
    pub admin: bool,
    pub read: Vec<String>,
    pub write: Vec<String>,
}

impl Capabilities {
    /// Capabilities over every topic.
    pub fn new_admin() -> (r: Self)
        ensures
            r.admin,
    {
        Capabilities { admin: true, read: Vec::new(), write: Vec::new() }
    }

    /// Capabilities over the topics listed.
    pub fn new(read: Vec<String>, write: Vec<String>) -> (r: Self)
        ensures
            !r.admin,
            r.read@ == read@,
            r.write@ == write@,
    {
        Capabilities { admin: false, read, write }
    }

    pub open spec fn spec_can_subscribe(&self, topic: Seq<char>) -> bool {
        self.admin || contains_str(self.read@, topic)
    }

    pub open spec fn spec_can_publish(&self, topic: Seq<char>) -> bool {
        self.admin || contains_str(self.write@, topic)
    }

    pub fn can_subscribe(&self, topic: &str) -> (r: bool)
        ensures
            r == self.spec_can_subscribe(topic@),
    {
        if self.admin {
            return true;
        }
        slice_contains(self.read.as_slice(), topic)
    }

    pub fn can_publish(&self, topic: &str) -> (r: bool)
        ensures
            r == self.spec_can_publish(topic@),
    {
        if self.admin {
            return true;
        }
        slice_contains(self.write.as_slice(), topic)
    }
}

#[derive(Debug, Clone, Copy, PartialEq, Eq, Structural)]
pub enum TokenError {
    Invalid,
    NoKeyId,
}

#[derive(Debug, Clone, Copy, PartialEq, Eq, Structural)]
pub enum AuthorizationError {
    Token(TokenError),
    StoreNotFound,
    StoreError,
    KeyNotFound,
}

impl From<TokenError> for AuthorizationError {
    fn from(e: TokenError) -> (r: Self) {
        AuthorizationError::Token(e)
    }
}

impl vstd::std_specs::convert::FromSpecImpl<TokenError> for AuthorizationError {
    open spec fn obeys_from_spec() -> bool {
        true
    }

    open spec fn from_spec(e: TokenError) -> Self {
        AuthorizationError::Token(e)
    }
}

/// Checks bearer tokens and gives the capabilities they grant.
pub trait Authorizor {
    fn validate_token(&self, token: &str, internal_key: Option<&[u8]>) -> Result<
        Capabilities,
        AuthorizationError,
    >;
}

} // verus!
