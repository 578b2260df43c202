//! The two sections of a request list: the names to read and the names to
//! write, each given at most once, under its keyword.

use crate::name::{compare_names, NameOrder};
use crate::request::{mode_keyword, request_views, LockRequest, ReadWrite, RequestSpec};
use vstd::prelude::*;

verus! {

/// The mode that `keyword` stands for, if it stands for one.
pub open spec fn keyword_mode(keyword: Seq<char>) -> Option<ReadWrite> {
    if keyword == mode_keyword(ReadWrite::Read) {
        Some(ReadWrite::Read)
    } else if keyword == mode_keyword(ReadWrite::Write) {
        Some(ReadWrite::Write)
    } else {
        None
    }
}

/// The mode that `keyword` stands for: `read` or `write`, and nothing else.
pub fn mode_of_keyword(keyword: &str) -> (r: Option<ReadWrite>)
    ensures
        r == keyword_mode(keyword@),
{
    if compare_names(keyword, ReadWrite::Read.ident()) == NameOrder::Same {
        Some(ReadWrite::Read)
    } else if compare_names(keyword, ReadWrite::Write.ident()) == NameOrder::Same {
        Some(ReadWrite::Write)
    } else {
        None
    }
}

/// Why a section was not taken.
#[derive(Clone, Copy, Debug, PartialEq, Eq, Structural)]
pub enum SectionError {
    /// The keyword is neither `read` nor `write`.
    UnknownKeyword,
    /// There was a section for this mode already.
    Repeated(ReadWrite),
}

impl SectionError {
    /// The message for this error.
    pub fn message(self) -> (s: &'static str)
        ensures
            s@ == match self {
                SectionError::UnknownKeyword => "Expected `read` or `write`."@,
                SectionError::Repeated(ReadWrite::Read) => "`read` found more than once."@,
                SectionError::Repeated(ReadWrite::Write) => "`write` found more than once."@,
            },
    {
        match self {
            SectionError::UnknownKeyword => "Expected `read` or `write`.",
            SectionError::Repeated(ReadWrite::Read) => "`read` found more than once.",
            SectionError::Repeated(ReadWrite::Write) => "`write` found more than once.",
        }
    }
}

/// The names of a list, each as a mathematical value.
pub open spec fn name_views(names: Seq<String>) -> Seq<Seq<char>> {
    names.map_values(|s: String| s@)
}

/// The names of a section, or none where the section was not given.
pub open spec fn section_names(section: Option<Vec<String>>) -> Seq<Seq<char>> {
    match section {
        Some(names) => name_views(names@),
        None => Seq::empty(),
    }
}

/// A request in `mode` for each of the names, in their order.
pub open spec fn requests_in_mode(names: Seq<Seq<char>>, mode: ReadWrite) -> Seq<RequestSpec> {
    names.map_values(|name: Seq<char>| RequestSpec { name, mode })
}

/// The sections seen so far.
#[derive(Debug)]
pub struct Sections {
    /// The names to read, once their section was seen.
    pub read: Option<Vec<String>>,
    /// The names to write, once their section was seen.
    pub write: Option<Vec<String>>,
}

impl Sections {
    /// The requests that the sections make: those to read first, then those
    /// to write, each in the order of its section.
    pub open spec fn requests(&self) -> Seq<RequestSpec> {
        requests_in_mode(section_names(self.read), ReadWrite::Read) + requests_in_mode(
            section_names(self.write),
            ReadWrite::Write,
        )
    }

    /// No section seen yet.
    pub fn new() -> (s: Sections)
        ensures
            s.read is None,
            s.write is None,
    {
        Sections { read: None, write: None }
    }

    /// Takes the section that stands under `keyword`.
    ///
    /// The keyword must be `read` or `write`, and each may come once only.
    /// A section that is refused changes nothing.
    pub fn add(&mut self, keyword: &str, names: Vec<String>) -> (r: Result<(), SectionError>)
        ensures
            match keyword_mode(keyword@) {
                None => r == Err::<(), SectionError>(SectionError::UnknownKeyword) && *final(self)
                    == *old(self),
                Some(ReadWrite::Read) => if old(self).read is None {
                    r is Ok && final(self).read == Some(names) && final(self).write == old(
                        self,
                    ).write
                } else {
                    r == Err::<(), SectionError>(SectionError::Repeated(ReadWrite::Read))
                        && *final(self) == *old(self)
                },
                Some(ReadWrite::Write) => if old(self).write is None {
                    r is Ok && final(self).write == Some(names) && final(self).read == old(
                        self,
                    ).read
                } else {
                    r == Err::<(), SectionError>(SectionError::Repeated(ReadWrite::Write))
                        && *final(self) == *old(self)
                },
            },
    {
        match mode_of_keyword(keyword) {
            None => Err(SectionError::UnknownKeyword),
            Some(ReadWrite::Read) => {
                if self.read.is_some() {
                    Err(SectionError::Repeated(ReadWrite::Read))
                } else {
                    self.read = Some(names);
                    Ok(())
                }
            },
            Some(ReadWrite::Write) => {
                if self.write.is_some() {
                    Err(SectionError::Repeated(ReadWrite::Write))
                } else {
                    self.write = Some(names);
                    Ok(())
                }
            },
        }
    }

    /// The requests that the sections make, those to read first.
    pub fn merge(&self) -> (requests: Vec<LockRequest>)
        ensures
            request_views(requests@) == self.requests(),
    {
        let mut requests: Vec<LockRequest> = Vec::new();
        append_in_mode(&mut requests, &self.read, ReadWrite::Read);
        append_in_mode(&mut requests, &self.write, ReadWrite::Write);
        requests
    }
}

/// Appends a request in `mode` for each name of the section.
fn append_in_mode(requests: &mut Vec<LockRequest>, section: &Option<Vec<String>>, mode: ReadWrite)
    ensures
        request_views(final(requests)@) == request_views(
            old(requests)@,
        ) + requests_in_mode(section_names(*section), mode),
{
    let ghost before = request_views(requests@);
    match section {
        None => {
            assert(request_views(requests@) =~= before + requests_in_mode(
                section_names(*section),
                mode,
            ));
        },
        Some(names) => {
            let ghost wanted = requests_in_mode(name_views(names@), mode);
            let mut i: usize = 0;
            assert(request_views(requests@) =~= before + wanted.take(0));
            while i < names.len()
                invariant
                    i <= names.len(),
                    wanted == requests_in_mode(name_views(names@), mode),
                    request_views(requests@) == before + wanted.take(i as int),
                decreases names.len() - i,
            {
                let ghost so_far = request_views(requests@);
                requests.push(LockRequest::new(names[i].as_str(), mode));
                assert(request_views(requests@) =~= so_far.push(wanted[i as int]));
                assert(wanted.take(i + 1) =~= wanted.take(i as int).push(wanted[i as int]));
                assert(before + wanted.take(i + 1) =~= (before + wanted.take(i as int)).push(
                    wanted[i as int],
                ));
                i = i + 1;
            }
            assert(wanted.take(i as int) =~= wanted);
        },
    }
}

} // verus!
