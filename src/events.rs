//! The fields of firehose frames and of the JSON-lines dump that the ingest
//! loops decide on.
use vstd::prelude::*;

verus! {

/// The header of a firehose frame.
pub struct StreamEventHeader {
    pub op: i64,
    pub t: Option<String>,
}

/// The body of an `#info` frame.
pub struct SubscribeReposInfo {
    pub message: Option<String>,
    pub name: String,
}

/// What a frame carries.
#[derive(Clone, Copy, Debug, PartialEq, Eq, Structural)]
pub enum EventKind {
    Commit,
    Info,
    Other,
}

pub open spec fn event_kind_spec(t: Option<Seq<char>>) -> EventKind {
    match t {
        Some(s) => if s == "#commit"@ {
            EventKind::Commit
        } else if s == "#info"@ {
            EventKind::Info
        } else {
            EventKind::Other
        },
        None => EventKind::Other,
    }
}

impl StreamEventHeader {
    pub fn kind(&self) -> (r: EventKind)
        ensures
            r == event_kind_spec(
                match self.t {
                    Some(s) => Some(s@),
                    None => None,
                },
            ),
    {
        match &self.t {
            Some(t) => {
                let commit: String = "#commit".to_owned();
                let info: String = "#info".to_owned();
                if *t == commit {
                    EventKind::Commit
                } else if *t == info {
                    EventKind::Info
                } else {
                    EventKind::Other
                }
            },
            None => EventKind::Other,
        }
    }
}

impl SubscribeReposInfo {
    /// The relay no longer has events from the cursor asked for.
    pub fn is_outdated_cursor(&self) -> (r: bool)
        ensures
            r == (self.name@ == "OutdatedCursor"@),
    {
        let outdated: String = "OutdatedCursor".to_owned();
        self.name == outdated
    }
}

/// A created record of the dump, with the AT-URI it links to.
pub struct CreateEntry {
    pub did: String,
    pub rkey: String,
    pub uri: String,
}

/// A deleted record of the dump.
pub struct DeleteEntry {
    pub did: String,
    pub rkey: String,
}

/// One line of the dump.
pub enum Action {
    Create(CreateEntry),
    Delete(DeleteEntry),
}

/// Why a dump line is not an action.
#[derive(Clone, Copy, Debug, PartialEq, Eq, Structural)]
pub enum ActionError {
    /// The action is neither `c` nor `d`.
    UnknownAction,
    /// A `c` line without a URI.
    MissingUri,
}

impl Action {
    /// The action of a line `[action, did, rkey, uri]`.
    pub fn from_fields(action: &str, did: String, rkey: String, uri: Option<String>) -> (r: Result<
        Action,
        ActionError,
    >)
        ensures
            action@ == "c"@ ==> match uri {
                Some(u) => r matches Ok(Action::Create(e)) && e.did == did && e.rkey == rkey
                    && e.uri == u,
                None => r matches Err(ActionError::MissingUri),
            },
            action@ == "d"@ ==> (r matches Ok(Action::Delete(e)) && e.did == did && e.rkey == rkey),
            action@ != "c"@ && action@ != "d"@ ==> r matches Err(ActionError::UnknownAction),
    {
        let a: String = action.to_owned();
        let c: String = "c".to_owned();
        let d: String = "d".to_owned();
        proof {
            reveal_strlit("c");
            reveal_strlit("d");
            assert("c"@[0] != "d"@[0]);
        }
        if a == c {
            match uri {
                Some(u) => Ok(Action::Create(CreateEntry { did, rkey, uri: u })),
                None => Err(ActionError::MissingUri),
            }
        } else if a == d {
            Ok(Action::Delete(DeleteEntry { did, rkey }))
        } else {
            Err(ActionError::UnknownAction)
        }
    }
}

} // verus!
