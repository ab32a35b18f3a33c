//! The fragment-inclusion executor.
//!
//! Walks the entry list in document order and resolves every
//! fragment-inclusion instruction into content bytes by invoking the
//! external fetch collaborator, applying the fallback-location and
//! on-error policies. The collaborator is only a trait here; nothing is
//! assumed of what it returns, so the contracts state what holds of the
//! executor's result whatever comes back, and the decision logic that
//! follows each fetch stands in functions of its own with exact
//! contracts.

use vstd::prelude::*;

use crate::attrs::copy_whole;
use crate::scan::copy_range;
use crate::entries::SpecEntry;
use crate::entries::SpecTag;
use crate::entries::Tag;
use crate::entries::TagEntry;
use crate::entries::entries_view;
use crate::entries::inclusion_name;
use crate::entries::inclusion_name_vec;
use crate::entries::spec_lookup;
use crate::errors::ExecutionError;
use crate::errors::SpecError;
use crate::scan::bytes_eq;

verus! {

// ---------------------------------------------------------------------------
// Requests and responses
// ---------------------------------------------------------------------------

/// A request initiated by the executor: the logical location of a
/// fragment to fetch.
#[derive(Debug)]
pub struct Request {
    pub url: Vec<u8>,
}

impl Request {
    /// Builds a request for the given location.
    pub fn from_url(url: &Vec<u8>) -> (r: Request)
        ensures
            r.url@ == url@,
    {
        Request { url: copy_whole(url) }
    }
}

/// A response from the fetch collaborator: the fragment body and the
/// status code the transport reported.
#[derive(Debug)]
pub struct Response {
    pub body: Vec<u8>,
    pub status_code: u16,
}

/// Handles requests to backends as part of the execution process. The
/// transport is external to this crate: an implementation either returns
/// a response or fails with a transport-level error, and is expected to
/// treat statuses outside the success range as failures before returning.
pub trait ExecutionContext {
    /// Sends a request to the given location and returns either the
    /// response or an error.
    fn send_request(&self, req: Request) -> Result<Response, ExecutionError>;
}

// ---------------------------------------------------------------------------
// The fetch policy
// ---------------------------------------------------------------------------

/// Applies the whole two-step fetch policy to what the attempts
/// returned. A primary success is kept unchanged. On a primary failure:
/// a fallback success, when one was attempted, is kept; a fallback
/// failure, or the absence of any fallback attempt, propagates the
/// primary's failure, the fallback's failure detail being discarded.
pub fn resolve_attempts(
    primary: Result<Response, ExecutionError>,
    fallback: Option<Result<Response, ExecutionError>>,
) -> (r: Result<Response, ExecutionError>)
    ensures
        primary matches Ok(resp) ==> (r matches Ok(kept) && kept == resp),
        primary matches Err(err) ==> (match fallback {
            Option::Some(Ok(resp)) => r matches Ok(kept) && kept == resp,
            Option::Some(Err(_)) => r matches Err(e) && e == err,
            Option::None => r matches Err(e) && e == err,
        }),
{
    match primary {
        Ok(resp) => Ok(resp),
        Err(err) => match fallback {
            Option::Some(Ok(resp)) => Ok(resp),
            Option::Some(Err(_)) => Err(err),
            Option::None => Err(err),
        },
    }
}

/// Resolves one fragment through the two-step fetch policy: the primary
/// location first; only on its failure the fallback location, if one was
/// given. A primary success short-circuits: the fallback is then never
/// attempted. Nothing is assumed of the collaborator, so nothing is
/// promised here of the outcome itself; the whole policy over the
/// attempts' outcomes is stated exactly by [`resolve_attempts`], which
/// this function hands both of them to.
pub fn send_request<C: ExecutionContext>(src: &Vec<u8>, alt: &Option<Vec<u8>>, client: &C) -> Result<
    Response,
    ExecutionError,
> {
    let primary = client.send_request(Request::from_url(src));
    let primary_failed = match &primary {
        Ok(_) => false,
        Err(_) => true,
    };
    let fallback = if primary_failed {
        match alt {
            Option::Some(alt_url) => Option::Some(client.send_request(Request::from_url(alt_url))),
            Option::None => Option::None,
        }
    } else {
        Option::None
    };
    resolve_attempts(primary, fallback)
}

// ---------------------------------------------------------------------------
// Parameter names
// ---------------------------------------------------------------------------

/// The three bytes of `src`, the required location parameter.
pub open spec fn src_name() -> Seq<u8> {
    seq![115u8, 114u8, 99u8]
}

/// The three bytes of `alt`, the optional fallback-location parameter.
pub open spec fn alt_name() -> Seq<u8> {
    seq![97u8, 108u8, 116u8]
}

/// The seven bytes of `onerror`, the optional error-policy parameter.
pub open spec fn onerror_name() -> Seq<u8> {
    seq![111u8, 110u8, 101u8, 114u8, 114u8, 111u8, 114u8]
}

/// The eight bytes of `continue`, the recognized error-policy value.
pub open spec fn continue_value() -> Seq<u8> {
    seq![99u8, 111u8, 110u8, 116u8, 105u8, 110u8, 117u8, 101u8]
}

/// `src` as executable bytes.
pub fn src_name_vec() -> (r: Vec<u8>)
    ensures
        r@ == src_name(),
{
    let mut v: Vec<u8> = Vec::new();
    v.push(115);
    v.push(114);
    v.push(99);
    assert(v@ =~= src_name());
    v
}

/// `alt` as executable bytes.
pub fn alt_name_vec() -> (r: Vec<u8>)
    ensures
        r@ == alt_name(),
{
    let mut v: Vec<u8> = Vec::new();
    v.push(97);
    v.push(108);
    v.push(116);
    assert(v@ =~= alt_name());
    v
}

/// `onerror` as executable bytes.
pub fn onerror_name_vec() -> (r: Vec<u8>)
    ensures
        r@ == onerror_name(),
{
    let mut v: Vec<u8> = Vec::new();
    v.push(111);
    v.push(110);
    v.push(101);
    v.push(114);
    v.push(114);
    v.push(111);
    v.push(114);
    assert(v@ =~= onerror_name());
    v
}

/// `continue` as executable bytes.
pub fn continue_value_vec() -> (r: Vec<u8>)
    ensures
        r@ == continue_value(),
{
    let mut v: Vec<u8> = Vec::new();
    v.push(99);
    v.push(111);
    v.push(110);
    v.push(116);
    v.push(105);
    v.push(110);
    v.push(117);
    v.push(101);
    assert(v@ =~= continue_value());
    v
}

// ---------------------------------------------------------------------------
// Deciding what an outcome contributes
// ---------------------------------------------------------------------------

/// Whether the instruction downgrades fetch failures to empty content.
pub open spec fn continues_on_error(tag: SpecTag) -> bool {
    spec_lookup(tag.parameters, onerror_name()) == Option::Some(continue_value())
}

/// What a resolved fetch outcome contributes at an instruction's
/// position: a successful response contributes its body; a failure is
/// downgraded to empty content when the instruction carries the
/// continue-on-error policy, and stays fatal otherwise. A downgraded
/// failure is not dropped: it comes back beside the empty content, for
/// the caller to report.
pub fn resolve_fetch_outcome(tag: &Tag, outcome: Result<Response, ExecutionError>) -> (r: Result<
    (Vec<u8>, Option<ExecutionError>),
    ExecutionError,
>)
    ensures
        outcome matches Ok(resp) ==> (r matches Ok(p) && p.0@ == resp.body@ && p.1 is None),
        outcome matches Err(err) ==> (if continues_on_error(tag@) {
            r matches Ok(p) && p.0@ == Seq::<u8>::empty() && p.1 == Option::Some(err)
        } else {
            r matches Err(e) && e == err
        }),
{
    match outcome {
        Ok(resp) => Ok((resp.body, Option::None)),
        Err(err) => {
            let onerror_key = onerror_name_vec();
            match tag.get_param(&onerror_key) {
                Option::Some(policy) => {
                    let continue_bytes = continue_value_vec();
                    if bytes_eq(&policy, &continue_bytes) {
                        Ok((Vec::new(), Option::Some(err)))
                    } else {
                        Err(err)
                    }
                },
                Option::None => Err(err),
            }
        },
    }
}

// ---------------------------------------------------------------------------
// The executor
// ---------------------------------------------------------------------------

/// Whether an entry is a fragment-inclusion instruction.
pub open spec fn is_inclusion(e: SpecEntry) -> bool {
    e matches SpecEntry::Instruction(t) && t.name == inclusion_name()
}

/// The tag of an instruction entry.
pub open spec fn entry_tag(e: SpecEntry) -> SpecTag
    recommends
        e is Instruction,
{
    e->Instruction_0
}

/// The identifier of an instruction tag: its name with the namespace
/// prefix stripped. The error taxonomy names instructions this way.
pub open spec fn instruction_ident(name: Seq<u8>) -> Seq<u8> {
    name.skip(4)
}

/// Whether the fragment-inclusion instruction at `k` lacks its required
/// location parameter and is provably reached whatever the collaborator
/// does: every fragment-inclusion instruction before it both carries
/// its location and downgrades fetch failures, so no earlier entry can
/// abort the executor. (When `k` is the first such instruction, the
/// condition on earlier ones holds vacuously.)
pub open spec fn missing_src_unavoidable(entries: Seq<SpecEntry>, k: int) -> bool {
    &&& 0 <= k < entries.len()
    &&& is_inclusion(entries[k])
    &&& spec_lookup(entry_tag(entries[k]).parameters, src_name()) is None
    &&& forall|j: int|
        0 <= j < k && is_inclusion(#[trigger] entries[j]) ==> (spec_lookup(
            entry_tag(entries[j]).parameters,
            src_name(),
        ) is Some && continues_on_error(entry_tag(entries[j])))
}

/// Executes every fragment-inclusion instruction of the entry list in
/// document order and returns one optional content slot per entry,
/// together with the report of non-fatal conditions: one record per
/// fetch failure downgraded by the continue-on-error policy, carrying
/// the entry's position and the discarded failure. The report is the
/// executor's observability channel: a downgraded failure never
/// surfaces as an error, and is never silently dropped either.
///
/// On success the slots line up with the entries: exactly the
/// fragment-inclusion instructions have their slot filled (with the
/// fetched body, or with empty content where a failure was downgraded),
/// every such instruction carried its required location parameter, and
/// every reported record names a downgrading instruction whose slot
/// holds empty content. A list without fragment-inclusion instructions
/// always succeeds, with every slot and the report empty and no fetch
/// made. When a fragment-inclusion instruction lacks its location
/// parameter and every earlier one both carries its location and
/// downgrades failures, the executor always fails with the
/// missing-parameter error naming that instruction's identifier,
/// whatever the collaborator does.
pub fn execute_tag_entries<C: ExecutionContext>(entries: &Vec<TagEntry>, client: &C) -> (r: Result<
    (Vec<Option<Vec<u8>>>, Vec<(usize, ExecutionError)>),
    ExecutionError,
>)
    ensures
        r matches Ok(res) ==> {
            &&& res.0@.len() == entries@.len()
            &&& forall|i: int|
                0 <= i < entries@.len() ==> ((res.0@[i] is Some) <==> is_inclusion(
                    #[trigger] entries_view(entries@)[i],
                ))
            &&& forall|i: int|
                0 <= i < entries@.len() && is_inclusion(#[trigger] entries_view(entries@)[i])
                    ==> spec_lookup(entry_tag(entries_view(entries@)[i]).parameters, src_name())
                    is Some
            &&& forall|n: int|
                0 <= n < res.1@.len() ==> {
                    let rec = #[trigger] res.1@[n];
                    &&& rec.0 < entries@.len()
                    &&& is_inclusion(entries_view(entries@)[rec.0 as int])
                    &&& continues_on_error(entry_tag(entries_view(entries@)[rec.0 as int]))
                    &&& (res.0@[rec.0 as int] matches Option::Some(c) && c@ == Seq::<u8>::empty())
                }
        },
        (forall|i: int| 0 <= i < entries@.len() ==> !is_inclusion(#[trigger] entries_view(entries@)[i]))
            ==> (r matches Ok(res) && res.1@.len() == 0 && forall|i: int|
            0 <= i < res.0@.len() ==> res.0@[i] is None),
        forall|k: int|
            #[trigger] missing_src_unavoidable(entries_view(entries@), k) ==> (r matches Err(e)
                && e@ == SpecError::MissingParam(
                instruction_ident(entry_tag(entries_view(entries@)[k]).name),
                src_name(),
            )),
{
    let ghost es = entries_view(entries@);
    let mut slots: Vec<Option<Vec<u8>>> = Vec::new();
    let mut report: Vec<(usize, ExecutionError)> = Vec::new();
    let mut idx: usize = 0;
    let inclusion_tag = inclusion_name_vec();
    let src_key = src_name_vec();
    let alt_key = alt_name_vec();
    while idx < entries.len()
        invariant
            idx <= entries@.len(),
            es == entries_view(entries@),
            inclusion_tag@ == inclusion_name(),
            src_key@ == src_name(),
            alt_key@ == alt_name(),
            slots@.len() == idx,
            forall|i: int| 0 <= i < idx ==> ((slots@[i] is Some) <==> is_inclusion(#[trigger] es[i])),
            forall|i: int|
                0 <= i < idx && is_inclusion(#[trigger] es[i]) ==> spec_lookup(
                    entry_tag(es[i]).parameters,
                    src_name(),
                ) is Some,
            forall|n: int|
                0 <= n < report@.len() ==> {
                    let rec = #[trigger] report@[n];
                    &&& rec.0 < idx
                    &&& is_inclusion(es[rec.0 as int])
                    &&& continues_on_error(entry_tag(es[rec.0 as int]))
                    &&& (slots@[rec.0 as int] matches Option::Some(c) && c@ == Seq::<u8>::empty())
                },
        decreases entries@.len() - idx,
    {
        assert(es[idx as int] == entries@[idx as int]@);
        let entry = &entries[idx];
        match entry {
            TagEntry::Instruction(tag) => {
                if bytes_eq(&tag.name, &inclusion_tag) {
                    assert(is_inclusion(es[idx as int]));
                    match tag.get_param(&src_key) {
                        Option::None => {
                            proof {
                                assert forall|k: int| #[trigger]
                                    missing_src_unavoidable(es, k) implies k == idx by {
                                    if k < idx {
                                        assert(spec_lookup(entry_tag(es[k]).parameters, src_name())
                                            is Some);
                                    } else if k > idx {
                                        assert(is_inclusion(es[idx as int]));
                                        assert(spec_lookup(
                                            entry_tag(es[idx as int]).parameters,
                                            src_name(),
                                        ) is Some);
                                    }
                                }
                            }
                            assert(tag.name@.len() == 11);
                            let ident = copy_range(&tag.name, 4, tag.name.len());
                            assert(ident@ =~= instruction_ident(tag.name@));
                            let src_owned = src_name_vec();
                            return Err(ExecutionError::MissingRequiredParameter(ident, src_owned));
                        },
                        Option::Some(src) => {
                            let alt = tag.get_param(&alt_key);
                            let outcome = send_request(&src, &alt, client);
                            match resolve_fetch_outcome(tag, outcome) {
                                Ok(contribution) => {
                                    let (body, downgraded) = contribution;
                                    match downgraded {
                                        Option::Some(err) => {
                                            report.push((idx, err));
                                            slots.push(Option::Some(body));
                                        },
                                        Option::None => {
                                            slots.push(Option::Some(body));
                                        },
                                    }
                                },
                                Err(err) => {
                                    proof {
                                        assert forall|k: int| #[trigger]
                                            missing_src_unavoidable(es, k) implies false by {
                                            if k < idx {
                                                assert(spec_lookup(
                                                    entry_tag(es[k]).parameters,
                                                    src_name(),
                                                ) is Some);
                                            } else if k == idx {
                                                assert(spec_lookup(
                                                    entry_tag(es[k]).parameters,
                                                    src_name(),
                                                ) is Some);
                                            } else {
                                                assert(is_inclusion(es[idx as int]));
                                                assert(!continues_on_error(tag@));
                                            }
                                        }
                                    }
                                    return Err(err);
                                },
                            }
                        },
                    }
                } else {
                    assert(!is_inclusion(es[idx as int]));
                    slots.push(Option::None);
                }
            },
            TagEntry::Passthrough(_) => {
                assert(!is_inclusion(es[idx as int]));
                slots.push(Option::None);
            },
        }
        idx = idx + 1;
    }
    proof {
        assert forall|k: int| #[trigger] missing_src_unavoidable(es, k) implies false by {
            assert(spec_lookup(entry_tag(es[k]).parameters, src_name()) is Some);
        }
        if forall|i: int| 0 <= i < entries@.len() ==> !is_inclusion(#[trigger] es[i]) {
            assert forall|i: int| 0 <= i < slots@.len() implies slots@[i] is None by {
                assert(!is_inclusion(es[i]));
            }
            assert(report@.len() == 0) by {
                if report@.len() > 0 {
                    let rec = report@[0];
                    assert(is_inclusion(es[rec.0 as int]));
                }
            }
        }
    }
    Ok((slots, report))
}

} // verus!
