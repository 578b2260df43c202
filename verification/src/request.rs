//! Lock requests and the canonically ordered request set.

use crate::name::{
    compare_names, lemma_name_lt_irreflexive, lemma_name_lt_transitive, name_lt, NameOrder,
};
use vstd::prelude::*;

verus! {

/// The access that a request asks for.
#[derive(Clone, Copy, Debug, PartialEq, Eq, Structural)]
pub enum ReadWrite {
    /// Shared access.
    Read,
    /// Exclusive access.
    Write,
}

/// The keyword that stands for a mode.
pub open spec fn mode_keyword(mode: ReadWrite) -> Seq<char> {
    match mode {
        ReadWrite::Read => "read"@,
        ReadWrite::Write => "write"@,
    }
}

impl ReadWrite {
    /// The keyword that stands for this mode: `read` or `write`.
    pub fn ident(self) -> (s: &'static str)
        ensures
            s@ == mode_keyword(self),
    {
        match self {
            ReadWrite::Read => "read",
            ReadWrite::Write => "write",
        }
    }
}

/// One named lock to acquire, and the access wanted.
#[derive(Debug, PartialEq, Eq)]
pub struct LockRequest {
    /// The name of the lock.
    pub name: String,
    /// The access wanted.
    pub mode: ReadWrite,
}

/// What a request is, as a mathematical value.
pub struct RequestSpec {
    /// The name of the lock.
    pub name: Seq<char>,
    /// The access wanted.
    pub mode: ReadWrite,
}

impl View for LockRequest {
    type V = RequestSpec;

    open spec fn view(&self) -> RequestSpec {
        RequestSpec { name: self.name@, mode: self.mode }
    }
}

impl LockRequest {
    /// A request for the lock `name` in the given mode.
    pub fn new(name: &str, mode: ReadWrite) -> (r: LockRequest)
        ensures
            r@ == (RequestSpec { name: name@, mode: mode }),
    {
        LockRequest { name: name.to_owned(), mode }
    }

    /// A copy of this request.
    pub fn duplicate(&self) -> (r: LockRequest)
        ensures
            r@ == self@,
    {
        LockRequest { name: self.name.clone(), mode: self.mode }
    }
}

/// The requests of a sequence, each as a mathematical value.
pub open spec fn request_views(s: Seq<LockRequest>) -> Seq<RequestSpec> {
    s.map_values(|r: LockRequest| r@)
}

/// No name is requested twice.
pub open spec fn names_distinct(s: Seq<RequestSpec>) -> bool {
    forall|i: int, j: int| 0 <= i < j < s.len() ==> s[i].name != s[j].name
}

/// The requests stand in strictly increasing order of their names.
pub open spec fn sorted_by_name(s: Seq<RequestSpec>) -> bool {
    forall|i: int, j: int| 0 <= i < j < s.len() ==> name_lt(s[i].name, s[j].name)
}

/// Some request names the lock `name`.
pub open spec fn requests_name(s: Seq<RequestSpec>, name: Seq<char>) -> bool {
    exists|i: int| 0 <= i < s.len() && s[i].name == name
}

/// Position `j` holds the first request whose name an earlier request has
/// used already.
pub open spec fn first_repeat(s: Seq<RequestSpec>, j: int) -> bool {
    &&& 0 <= j < s.len()
    &&& names_distinct(s.take(j))
    &&& requests_name(s.take(j), s[j].name)
}

/// `t` holds exactly the requests that `s` holds, and as many of them.
pub open spec fn same_requests(s: Seq<RequestSpec>, t: Seq<RequestSpec>) -> bool {
    &&& s.len() == t.len()
    &&& forall|r: RequestSpec| s.contains(r) <==> t.contains(r)
}

/// A name was requested more than once.
#[derive(Debug, PartialEq, Eq)]
pub struct DuplicateNameError {
    /// The name that was repeated.
    pub name: String,
}

/// The requests of one acquisition, without a repeated name and in the
/// canonical order: strictly increasing by name.
#[derive(Debug, PartialEq, Eq)]
pub struct RequestSet {
    items: Vec<LockRequest>,
}

impl View for RequestSet {
    type V = Seq<RequestSpec>;

    closed spec fn view(&self) -> Seq<RequestSpec> {
        request_views(self.items@)
    }
}

impl RequestSet {
    /// Every request set is in the canonical order.
    #[verifier::type_invariant]
    spec fn canonical(&self) -> bool {
        sorted_by_name(request_views(self.items@))
    }

    /// The number of requests.
    pub fn len(&self) -> (n: usize)
        ensures
            n == self@.len(),
            sorted_by_name(self@),
    {
        proof {
            use_type_invariant(self);
        }
        self.items.len()
    }

    /// Whether there is no request at all.
    pub fn is_empty(&self) -> (b: bool)
        ensures
            b == (self@.len() == 0),
    {
        self.items.len() == 0
    }

    /// The request at position `i` of the canonical order.
    pub fn get(&self, i: usize) -> (r: Option<&LockRequest>)
        ensures
            r is Some <==> i < self@.len(),
            r matches Some(request) ==> request@ == self@[i as int],
    {
        if i < self.items.len() {
            Some(&self.items[i])
        } else {
            None
        }
    }

    /// The requests, in the canonical order.
    pub fn as_slice(&self) -> (s: &[LockRequest])
        ensures
            request_views(s@) == self@,
            sorted_by_name(self@),
    {
        proof {
            use_type_invariant(self);
        }
        self.items.as_slice()
    }

    /// The position of the request for `name`, if there is one.
    pub fn position(&self, name: &str) -> (r: Option<usize>)
        ensures
            r is Some <==> requests_name(self@, name@),
            r matches Some(i) ==> i < self@.len() && self@[i as int].name == name@,
    {
        proof {
            use_type_invariant(self);
        }
        let slot = find_slot(&self.items, name);
        if slot.taken {
            Some(slot.at)
        } else {
            proof {
                lemma_name_lt_irreflexive(name@);
            }
            None
        }
    }
}

/// Where a name belongs in a sorted list of requests.
struct Slot {
    /// The first position whose name does not come before the name sought.
    at: usize,
    /// Whether the request at that position has the name sought.
    taken: bool,
}

/// Finds where `name` belongs among `items`, and whether it is there already.
fn find_slot(items: &Vec<LockRequest>, name: &str) -> (slot: Slot)
    requires
        sorted_by_name(request_views(items@)),
    ensures
        slot.at <= items.len(),
        forall|k: int| 0 <= k < slot.at ==> name_lt(#[trigger] items@[k].name@, name@),
        forall|k: int|
            slot.at + (if slot.taken { 1int } else { 0int }) <= k < items.len() ==> name_lt(
                name@,
                #[trigger] items@[k].name@,
            ),
        slot.taken ==> slot.at < items.len() && items@[slot.at as int].name@ == name@,
{
    let ghost views = request_views(items@);
    let mut at: usize = 0;
    while at < items.len()
        invariant
            at <= items.len(),
            views == request_views(items@),
            sorted_by_name(views),
            forall|k: int| 0 <= k < at ==> name_lt(#[trigger] items@[k].name@, name@),
        decreases items.len() - at,
    {
        match compare_names(items[at].name.as_str(), name) {
            NameOrder::Before => {
                at = at + 1;
            },
            NameOrder::Same => {
                assert forall|k: int| at < k < items.len() implies name_lt(
                    name@,
                    #[trigger] items@[k].name@,
                ) by {
                    assert(name_lt(views[at as int].name, views[k].name));
                }
                return Slot { at, taken: true };
            },
            NameOrder::After => {
                assert forall|k: int| at <= k < items.len() implies name_lt(
                    name@,
                    #[trigger] items@[k].name@,
                ) by {
                    if at < k {
                        assert(name_lt(views[at as int].name, views[k].name));
                        lemma_name_lt_transitive(name@, views[at as int].name, views[k].name);
                    }
                }
                return Slot { at, taken: false };
            },
        }
    }
    Slot { at, taken: false }
}

/// Puts the requests into the canonical order, or reports the first name that
/// is requested a second time.
///
/// The requests are merged one by one, in the order given. The first one whose
/// name was merged already ends the call with that name. Otherwise the result
/// holds exactly the given requests, sorted by name, whatever order they were
/// given in.
pub fn build(requests: &[LockRequest]) -> (r: Result<RequestSet, DuplicateNameError>)
    ensures
        r is Ok <==> names_distinct(request_views(requests@)),
        r matches Ok(set) ==> sorted_by_name(set@) && same_requests(
            request_views(requests@),
            set@,
        ),
        r matches Err(e) ==> exists|j: int|
            first_repeat(request_views(requests@), j) && e.name@ == request_views(
                requests@,
            )[j].name,
{
    let ghost given = request_views(requests@);
    let mut items: Vec<LockRequest> = Vec::new();
    let mut j: usize = 0;
    assert(given.take(0) =~= Seq::empty());
    while j < requests.len()
        invariant
            j <= requests.len(),
            given == request_views(requests@),
            items.len() == j,
            sorted_by_name(request_views(items@)),
            names_distinct(given.take(j as int)),
            forall|r: RequestSpec|
                request_views(items@).contains(r) <==> given.take(j as int).contains(r),
        decreases requests.len() - j,
    {
        let ghost merged = request_views(items@);
        let ghost before = given.take(j as int);
        let request = requests[j].duplicate();
        assert(request@ == given[j as int]);
        let slot = find_slot(&items, request.name.as_str());
        if slot.taken {
            proof {
                let held = merged[slot.at as int];
                assert(merged.contains(held));
                assert(before.contains(held));
                let i = choose|i: int| 0 <= i < before.len() && before[i] == held;
                assert(before[i].name == given[j as int].name);
                assert(first_repeat(given, j as int));
                lemma_repeat_not_distinct(given, j as int);
            }
            return Err(DuplicateNameError { name: request.name });
        }
        proof {
            lemma_merge_one(merged, before, given, j as int, slot.at as int);
        }
        items.insert(slot.at, request);
        assert(request_views(items@) =~= merged.insert(slot.at as int, given[j as int]));
        j = j + 1;
    }
    assert(given.take(j as int) =~= given);
    Ok(RequestSet { items })
}

/// A sequence with a first repeat has a repeated name.
pub proof fn lemma_repeat_not_distinct(s: Seq<RequestSpec>, j: int)
    requires
        first_repeat(s, j),
    ensures
        !names_distinct(s),
{
    let i = choose|i: int| 0 <= i < s.take(j).len() && s.take(j)[i].name == s[j].name;
    assert(s[i].name == s[j].name);
}

/// Merging the request at position `j` into the sorted requests before it, at
/// the place where its name belongs, keeps them sorted and adds just that one.
proof fn lemma_merge_one(
    merged: Seq<RequestSpec>,
    before: Seq<RequestSpec>,
    given: Seq<RequestSpec>,
    j: int,
    at: int,
)
    requires
        0 <= j < given.len(),
        before == given.take(j),
        0 <= at <= merged.len(),
        sorted_by_name(merged),
        names_distinct(before),
        forall|r: RequestSpec| merged.contains(r) <==> before.contains(r),
        forall|k: int| 0 <= k < at ==> name_lt(#[trigger] merged[k].name, given[j].name),
        forall|k: int| at <= k < merged.len() ==> name_lt(given[j].name, #[trigger] merged[k].name),
    ensures
        sorted_by_name(merged.insert(at, given[j])),
        names_distinct(given.take(j + 1)),
        forall|r: RequestSpec|
            merged.insert(at, given[j]).contains(r) <==> given.take(j + 1).contains(r),
{
    let added = given[j];
    let after = merged.insert(at, added);
    let next = given.take(j + 1);
    assert forall|a: int, b: int| 0 <= a < b < after.len() implies name_lt(
        after[a].name,
        after[b].name,
    ) by {
        if a < at && b > at {
            assert(name_lt(merged[a].name, merged[b - 1].name));
        } else if a < at && b < at {
            assert(name_lt(merged[a].name, merged[b].name));
        } else if a > at {
            assert(name_lt(merged[a - 1].name, merged[b - 1].name));
        }
    }
    assert forall|a: int, b: int| 0 <= a < b < next.len() implies next[a].name
        != next[b].name by {
        if b == j {
            assert(before[a] == given[a]);
            assert(before.contains(given[a]));
            assert(merged.contains(given[a]));
            let k = choose|k: int| 0 <= k < merged.len() && merged[k] == given[a];
            lemma_name_lt_irreflexive(added.name);
        } else {
            assert(before[a].name != before[b].name);
        }
    }
    assert forall|r: RequestSpec| after.contains(r) <==> next.contains(r) by {
        if after.contains(r) {
            let k = choose|k: int| 0 <= k < after.len() && after[k] == r;
            if k == at {
                assert(next[j] == r);
            } else {
                let old_k = if k < at { k } else { k - 1 };
                assert(merged[old_k] == r);
                assert(merged.contains(r));
                let i = choose|i: int| 0 <= i < before.len() && before[i] == r;
                assert(next[i] == r);
            }
        }
        if next.contains(r) {
            let i = choose|i: int| 0 <= i < next.len() && next[i] == r;
            if i == j {
                assert(after[at] == r);
            } else {
                assert(before[i] == r);
                assert(before.contains(r));
                let k = choose|k: int| 0 <= k < merged.len() && merged[k] == r;
                let new_k = if k < at { k } else { k + 1 };
                assert(after[new_k] == r);
            }
        }
    }
}

} // verus!
