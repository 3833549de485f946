//! The stored form of a company: one JSON object, from each department's
//! name to the array of its people.

use vstd::prelude::*;
use crate::company::ascending;
use crate::company::entry_views;
use crate::company::roster_of;
use crate::company::Company;
use crate::company::Department;
use crate::company::Entry;

verus! {

/// The error type of `serde_json`.
#[verifier::external_type_specification]
#[verifier::external_body]
pub struct ExJsonError(serde_json::Error);

/// Why a company could not be read from, or written as, its stored form.
#[derive(Debug)]
pub enum PersistenceError {
    /// The document is not a JSON object from names to arrays of names.
    Malformed { detail: String },
    /// The company could not be written as a document.
    Unwritable { detail: String },
}

/// The JSON document that `serde_json` writes for the departments `e`, their
/// names as the keys in the order of `e`; `None` where it writes none.
pub uninterp spec fn json_text(e: Seq<Entry>) -> Option<Seq<char>>;

/// The departments that `serde_json` reads from the document `text`, in the
/// ascending order of their names; `None` where it rejects the text.
pub uninterp spec fn json_entries(text: Seq<char>) -> Option<Seq<Entry>>;

/// Calls `serde_json::to_string` on the departments as a map from name to
/// people. Nothing is proved of the document: the contract only says that
/// the outcome depends on the departments alone, and names it `json_text`.
#[verifier::external_body]
fn encode(list: &Vec<Department>) -> (r: Result<String, serde_json::Error>)
    requires
        ascending(entry_views(list@)),
    ensures
        match r {
            Ok(text) => json_text(entry_views(list@)) == Some(text@),
            Err(_) => json_text(entry_views(list@)) is None,
        },
{
    let map: std::collections::BTreeMap<&str, &Vec<String>> = list.iter().map(
        |d| (d.name.as_str(), &d.people),
    ).collect();
    serde_json::to_string(&map)
}

/// Calls `serde_json::from_str` for a map from name to people. Nothing is
/// proved of what it reads: the contract only says that the outcome depends
/// on the text alone, and names it `json_entries`.
#[verifier::external_body]
fn decode(text: &str) -> (r: Result<Vec<Department>, serde_json::Error>)
    ensures
        match r {
            Ok(list) => json_entries(text@) == Some(entry_views(list@)),
            Err(_) => json_entries(text@) is None,
        },
{
    match serde_json::from_str::<std::collections::BTreeMap<String, Vec<String>>>(text) {
        Ok(map) => Ok(map.into_iter().map(|(name, people)| Department { name, people }).collect()),
        Err(e) => Err(e),
    }
}

/// Returns the message of a `serde_json` error, as its `Display` writes it.
/// Nothing is claimed of the message.
#[verifier::external_body]
fn describe(e: &serde_json::Error) -> String {
    e.to_string()
}

impl PersistenceError {
    /// The message that came with the error.
    pub fn detail(&self) -> (r: &str)
        ensures
            r@ == match self {
                PersistenceError::Malformed { detail } => detail@,
                PersistenceError::Unwritable { detail } => detail@,
            },
    {
        match self {
            PersistenceError::Malformed { detail } => detail.as_str(),
            PersistenceError::Unwritable { detail } => detail.as_str(),
        }
    }
}

/// A company as it stands when the program starts.
#[derive(Debug)]
pub struct Loaded {
    /// The company.
    pub company: Company,
    /// Whether the company is to be stored at once, because no stored form
    /// was there.
    pub persist: bool,
}

/// The stored form of `company`: the document to write in place of the old
/// one.
pub fn save(company: &Company) -> (r: Result<String, PersistenceError>)
    requires
        company.wf(),
    ensures
        match r {
            Ok(text) => json_text(company.entries()) == Some(text@),
            Err(e) => json_text(company.entries()) is None && e is Unwritable,
        },
{
    match encode(company.departments()) {
        Ok(text) => Ok(text),
        Err(e) => Err(PersistenceError::Unwritable { detail: describe(&e) }),
    }
}

/// The company that the document `text` holds.
pub fn restore(text: &str) -> (r: Result<Company, PersistenceError>)
    ensures
        match r {
            Ok(company) => json_entries(text@) is Some && company.wf() && company@ == roster_of(
                json_entries(text@).unwrap(),
            ),
            Err(e) => json_entries(text@) is None && e is Malformed,
        },
{
    match decode(text) {
        Ok(list) => Ok(Company::from_departments(list)),
        Err(e) => Err(PersistenceError::Malformed { detail: describe(&e) }),
    }
}

/// The company at the start of the program. Where no stored form exists
/// (`None`), the company is empty and is to be stored at once; where one
/// exists, it is read, and a document that cannot be read is an error.
pub fn load(stored: Option<&str>) -> (r: Result<Loaded, PersistenceError>)
    ensures
        match stored {
            None => r matches Ok(l) && l.company.wf() && l.persist && l.company@ == Map::<
                Seq<char>,
                Seq<Seq<char>>,
            >::empty(),
            Some(text) => match r {
                Ok(l) => json_entries(text@) is Some && l.company.wf() && !l.persist && l.company@
                    == roster_of(json_entries(text@).unwrap()),
                Err(e) => json_entries(text@) is None && e is Malformed,
            },
        },
{
    match stored {
        None => Ok(Loaded { company: Company::new(), persist: true }),
        Some(text) => match restore(text) {
            Ok(company) => Ok(Loaded { company, persist: false }),
            Err(e) => Err(e),
        },
    }
}

} // verus!
