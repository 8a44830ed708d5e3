//! The error kinds of the catalogue and their user-visible messages.

use vstd::prelude::*;
use vstd::string::StringExecFns;

verus! {

/// Everything that can go wrong while resolving, editing or persisting the
/// catalogue.
#[derive(Debug)]
pub enum Error {
    /// A referenced alias, link or group key is absent.
    NotFound { name: String },
    /// An alias points at a link that no longer exists.
    DanglingReference { alias: String, target: String },
    /// An add or edit would introduce a dangling reference and was rejected
    /// before any mutation.
    ValidationFailed { detail: String },
    /// The persisted store could not be read or written.
    IoError { detail: String },
    /// The persisted content is malformed.
    ParseError,
    /// An external helper process failed or exited non-zero.
    ExternalProcessError { detail: String },
}

/// Message for an alias whose target is not a link key.
pub open spec fn dangling_alias_msg(alias: Seq<char>, target: Seq<char>) -> Seq<char> {
    "alias '"@ + alias + "' points to '"@ + target + "' which is not in [links]"@
}

/// Message for a group member that is neither an alias nor a link key.
pub open spec fn dangling_entry_msg(group: Seq<char>, entry: Seq<char>) -> Seq<char> {
    "group '"@ + group + "' contains '"@ + entry + "' which is not in [aliases] or [links]"@
}

/// Message for an unknown name.
pub open spec fn not_found_msg(name: Seq<char>) -> Seq<char> {
    "'"@ + name + "' not found"@
}

impl Error {
    pub open spec fn message_spec(&self) -> Seq<char> {
        match self {
            Error::NotFound { name } => not_found_msg(name@),
            Error::DanglingReference { alias, target } => dangling_alias_msg(alias@, target@),
            Error::ValidationFailed { detail } => detail@,
            Error::IoError { detail } => detail@,
            Error::ParseError => "failed to parse config file"@,
            Error::ExternalProcessError { detail } => detail@,
        }
    }

    /// The human-readable description of the error.
    pub fn message(&self) -> (r: String)
        ensures
            r@ == self.message_spec(),
    {
        match self {
            Error::NotFound { name } => {
                let mut s = String::from_str("'");
                s.append(name.as_str());
                s.append("' not found");
                s
            },
            Error::DanglingReference { alias, target } => dangling_alias_warning(
                alias.as_str(),
                target.as_str(),
            ),
            Error::ValidationFailed { detail } => detail.clone(),
            Error::IoError { detail } => detail.clone(),
            Error::ParseError => String::from_str("failed to parse config file"),
            Error::ExternalProcessError { detail } => detail.clone(),
        }
    }
}

/// Build the dangling-alias message.
pub fn dangling_alias_warning(alias: &str, target: &str) -> (r: String)
    ensures
        r@ == dangling_alias_msg(alias@, target@),
{
    let mut s = String::from_str("alias '");
    s.append(alias);
    s.append("' points to '");
    s.append(target);
    s.append("' which is not in [links]");
    s
}

/// Build the dangling-group-entry message.
pub fn dangling_entry_warning(group: &str, entry: &str) -> (r: String)
    ensures
        r@ == dangling_entry_msg(group@, entry@),
{
    let mut s = String::from_str("group '");
    s.append(group);
    s.append("' contains '");
    s.append(entry);
    s.append("' which is not in [aliases] or [links]");
    s
}

} // verus!
