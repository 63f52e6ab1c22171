//! From the text of a report to the identifiers of the hosts that are online.

use std::collections::HashSet;
use vstd::prelude::*;
use vstd::string::StringExecFns;
use crate::builder::{build, build_spec, lemma_one_record_per_line, ParseError};
use crate::extractor::{extract_active, extract_spec, extracted, query_of, ExtractError};
use crate::tokenizer::{tokenize, tokenize_spec};
use crate::tree::{well_formed, RecordView, Tree};

verus! {

/// A source of the hardware addresses that are online right now.
pub trait RouterInterface {
    fn get_online_mac_addresses(&self) -> Result<HashSet<String>, String>;
}

/// Why a report gave no result.
#[derive(Debug, Clone, PartialEq, Eq)]
pub enum ReportError {
    /// The lines do not form a tree.
    Parse(ParseError),
    /// A host lacks a field.
    Extract(ExtractError),
}

impl ReportError {
    /// The text of `message`.
    pub open spec fn message_spec(&self) -> Seq<char> {
        match self {
            ReportError::Parse(ParseError::MisalignedIndent) => "Not divisible by 4"@,
            ReportError::Parse(ParseError::SkippedLevel) => "Cannot move forward for more than one step"@,
            ReportError::Parse(ParseError::OrphanNode) => "Cannot move back past the root"@,
            ReportError::Extract(ExtractError::MissingField(name)) => name@ + " is not set"@,
        }
    }

    /// The error in words.
    pub fn message(&self) -> (m: String)
        ensures
            m@ == self.message_spec(),
    {
        match self {
            ReportError::Parse(ParseError::MisalignedIndent) => "Not divisible by 4".to_owned(),
            ReportError::Parse(ParseError::SkippedLevel) => "Cannot move forward for more than one step".to_owned(),
            ReportError::Parse(ParseError::OrphanNode) => "Cannot move back past the root".to_owned(),
            ReportError::Extract(ExtractError::MissingField(name)) => {
                let mut m = name.clone();
                m.append(" is not set");
                m
            },
        }
    }
}

/// The tree that the text `raw` describes.
pub open spec fn parse_spec(raw: Seq<char>) -> Result<Seq<RecordView>, ParseError> {
    build_spec(tokenize_spec(raw))
}

/// What a call of `parse` on `raw` returned is what `parse_spec` says.
pub open spec fn parsed(r: Result<Tree, ParseError>, raw: Seq<char>) -> bool {
    match parse_spec(raw) {
        Ok(t) => r is Ok && r.unwrap()@ == t,
        Err(e) => r == Err::<Tree, ParseError>(e),
    }
}

/// Parses a report: one record for each structured line, nested by column.
pub fn parse(raw: &str) -> (r: Result<Tree, ParseError>)
    ensures
        parsed(r, raw@),
        r is Ok ==> well_formed(r.unwrap()@) && r.unwrap()@.len() == tokenize_spec(raw@).len() + 1,
{
    let lines = tokenize(raw);
    build(&lines)
}

/// A text that parses gives one record for each of its structured lines,
/// and the root.
pub proof fn lemma_one_record_per_structured_line(raw: Seq<char>)
    requires
        parse_spec(raw) is Ok,
    ensures
        well_formed(parse_spec(raw).unwrap()),
        parse_spec(raw).unwrap().len() == tokenize_spec(raw).len() + 1,
{
    lemma_one_record_per_line(tokenize_spec(raw));
}

/// Parsing the same text twice gives the same outcome: equal trees, or the
/// same error.
pub proof fn lemma_parse_deterministic(
    raw: Seq<char>,
    first: Result<Tree, ParseError>,
    second: Result<Tree, ParseError>,
)
    requires
        parsed(first, raw),
        parsed(second, raw),
    ensures
        first is Ok <==> second is Ok,
        first is Ok ==> first.unwrap()@ == second.unwrap()@,
        first is Err ==> first == second,
{
}

/// The addresses of the hosts that `raw` reports as active, or the first
/// error on the way: that of the tree, else that of the first host that
/// lacks its address or its flag.
pub open spec fn online_spec(raw: Seq<char>) -> Result<Result<Set<Seq<char>>, Seq<char>>, ParseError> {
    match parse_spec(raw) {
        Err(e) => Err(e),
        Ok(t) => Ok(extract_spec(t, query_of("host"@, "mac"@, "active"@, "yes"@))),
    }
}

/// Reads out of a report the hardware address of each host that is
/// active. Each address comes once.
pub fn online_mac_addresses(raw: &str) -> (r: Result<Vec<String>, ReportError>)
    ensures
        match online_spec(raw@) {
            Err(e) => r == Err::<Vec<String>, ReportError>(ReportError::Parse(e)),
            Ok(expected) => match r {
                Ok(found) => extracted(Ok(found), expected),
                Err(ReportError::Extract(e)) => extracted(Err(e), expected),
                Err(ReportError::Parse(_)) => false,
            },
        },
{
    match parse(raw) {
        Err(e) => Err(ReportError::Parse(e)),
        Ok(tree) => match extract_active(&tree, "host", "mac", "active", "yes") {
            Ok(found) => Ok(found),
            Err(e) => Err(ReportError::Extract(e)),
        },
    }
}

} // verus!
