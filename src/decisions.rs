//! Log of decisions: records with a title, a body and optional references.
use vstd::prelude::*;

verus! {

/// A decision as submitted for recording.
#[derive(Clone, Debug)]
pub struct RecordMsg {
    /// Title of the decision.
    pub title: String,
    /// Text body of the decision.
    pub body: String,
    /// Optional off-chain URL to a supporting document.
    pub url: Option<String>,
    /// Optional hash of a privately shared document.
    pub hash: Option<String>,
}

/// Which field of a decision has a length out of bounds, with the bounds.
#[derive(Clone, Copy, Debug, PartialEq, Eq, Structural)]
pub enum DecisionField {
    Title,
    Body,
    Url,
    Hash,
}

/// Why a decision was rejected.
#[derive(Clone, Copy, Debug, PartialEq, Eq, Structural)]
pub enum DecisionError {
    /// The field's length in bytes lies outside `[min, max]`.
    InvalidLength(DecisionField, u64, u64),
    Unauthorized,
}

/// Whether `n` lies outside `[lo, hi]`.
pub open spec fn out_of(n: int, lo: int, hi: int) -> bool {
    n < lo || n > hi
}

/// Length in bytes of the UTF-8 encoding of `s`.
pub open spec fn byte_len(s: Seq<char>) -> int {
    vstd::utf8::encode_utf8(s).len() as int
}

/// Length of `s` in bytes.
fn str_len(s: &String) -> (n: usize)
    ensures
        n == byte_len(s@),
{
    s.as_str().as_bytes().len()
}

impl RecordMsg {
    /// The first length check that fails, in the order title, body, url,
    /// hash.
    pub open spec fn first_error(&self) -> Option<DecisionError> {
        if out_of(byte_len(self.title@), 4, 128) {
            Some(DecisionError::InvalidLength(DecisionField::Title, 4, 128))
        } else if out_of(byte_len(self.body@), 20, 9192) {
            Some(DecisionError::InvalidLength(DecisionField::Body, 20, 9192))
        } else if self.url is Some && out_of(byte_len(self.url->0@), 3, 1024) {
            Some(DecisionError::InvalidLength(DecisionField::Url, 3, 1024))
        } else if self.hash is Some && out_of(byte_len(self.hash->0@), 20, 128) {
            Some(DecisionError::InvalidLength(DecisionField::Hash, 20, 128))
        } else {
            None
        }
    }

    /// Checks the lengths of the fields, in bytes.
    pub fn validate(&self) -> (r: Result<(), DecisionError>)
        ensures
            self.first_error() is None ==> r is Ok,
            self.first_error() is Some ==> r == Err::<(), DecisionError>(self.first_error()->0),
    {
        let t = str_len(&self.title);
        if t < 4 || t > 128 {
            return Err(DecisionError::InvalidLength(DecisionField::Title, 4, 128));
        }
        let b = str_len(&self.body);
        if b < 20 || b > 9192 {
            return Err(DecisionError::InvalidLength(DecisionField::Body, 20, 9192));
        }
        if let Some(url) = &self.url {
            let n = str_len(url);
            if n < 3 || n > 1024 {
                return Err(DecisionError::InvalidLength(DecisionField::Url, 3, 1024));
            }
        }
        if let Some(hash) = &self.hash {
            let n = str_len(hash);
            if n < 20 || n > 128 {
                return Err(DecisionError::InvalidLength(DecisionField::Hash, 20, 128));
            }
        }
        Ok(())
    }
}

/// A recorded decision.
#[derive(Clone, Debug)]
pub struct Decision {
    /// Creation time as a unix timestamp in seconds.
    pub created: u64,
    pub title: String,
    pub body: String,
    pub url: Option<String>,
    pub hash: Option<String>,
}

/// A recorded decision with its identifier.
#[derive(Clone, Debug)]
pub struct DecisionResponse {
    pub id: u64,
    pub created: u64,
    pub title: String,
    pub body: String,
    pub url: Option<String>,
    pub hash: Option<String>,
}

/// A page of recorded decisions.
#[derive(Clone, Debug)]
pub struct ListDecisionsResponse {
    pub decisions: Vec<DecisionResponse>,
}

/// Queries of the decision log.
#[derive(Clone, Copy, Debug, PartialEq, Eq, Structural)]
pub enum QueryMsg {
    /// One decision by its identifier.
    Decision { id: u64 },
    /// Decisions after `start_after`, at most `limit` of them.
    ListDecisions { start_after: Option<u64>, limit: Option<u32> },
}

impl Decision {
    /// The decision as returned to a query, under the identifier `id`.
    pub fn into_response(self, id: u64) -> (r: DecisionResponse)
        ensures
            r.id == id,
            r.created == self.created,
            r.title == self.title,
            r.body == self.body,
            r.url == self.url,
            r.hash == self.hash,
    {
        DecisionResponse { id, created: self.created, title: self.title, body: self.body, url: self.url, hash: self.hash }
    }
}

} // verus!
