//! The tag stream parser.
//!
//! The event stream of a document is filtered into an ordered list of
//! *entries*: passthrough markup kept verbatim, and instruction
//! descriptors for the recognized self-closing tags of the `esi:`
//! namespace. Blocks bracketed by remove tags are dropped wholesale, by a
//! two-state machine: a remove-block start tag enters the removing state,
//! the matching end tag leaves it, and an end tag seen outside the state
//! is a fatal error. Every markup event inside the block is discarded.

use vstd::prelude::*;

use crate::attrs::pairs_view;
use crate::attrs::parse_attributes;
use crate::attrs::attr_tokens;
use crate::attrs::spec_attr_tokens;
use crate::attrs::spec_dedup;
use crate::errors::ExecutionError;
use crate::errors::SpecError;
use crate::scan::SpecEvent;
use crate::scan::XmlEvent;
use crate::scan::bytes_eq;
use crate::scan::event_raw;
use crate::scan::lemma_events_from_step;
use crate::scan::next_event;
use crate::scan::spec_events_from;

verus! {

// ---------------------------------------------------------------------------
// Instruction names
// ---------------------------------------------------------------------------

/// The namespace prefix of instruction tags: the four bytes of `esi:`.
pub open spec fn esi_prefix() -> Seq<u8> {
    seq![101u8, 115u8, 105u8, 58u8]
}

/// Whether a tag name opens with the instruction namespace prefix.
pub open spec fn is_esi_name(name: Seq<u8>) -> bool {
    name.len() >= 4 && name.subrange(0, 4) == esi_prefix()
}

/// The ten bytes of the remove instruction's tag name, `esi:remove`.
pub open spec fn remove_name() -> Seq<u8> {
    seq![101u8, 115u8, 105u8, 58u8, 114u8, 101u8, 109u8, 111u8, 118u8, 101u8]
}

/// The eleven bytes of the fragment-inclusion instruction's tag name
/// (`esi:` followed by the verb for splicing a fetched fragment in).
pub open spec fn inclusion_name() -> Seq<u8> {
    seq![101u8, 115u8, 105u8, 58u8, 105u8, 110u8, 99u8, 108u8, 117u8, 100u8, 101u8]
}

/// The remove instruction's tag name as executable bytes.
pub fn remove_name_vec() -> (r: Vec<u8>)
    ensures
        r@ == remove_name(),
{
    let mut v: Vec<u8> = Vec::new();
    v.push(101);
    v.push(115);
    v.push(105);
    v.push(58);
    v.push(114);
    v.push(101);
    v.push(109);
    v.push(111);
    v.push(118);
    v.push(101);
    assert(v@ =~= remove_name());
    v
}

/// The fragment-inclusion instruction's tag name as executable bytes.
pub fn inclusion_name_vec() -> (r: Vec<u8>)
    ensures
        r@ == inclusion_name(),
{
    let mut v: Vec<u8> = Vec::new();
    v.push(101);
    v.push(115);
    v.push(105);
    v.push(58);
    v.push(105);
    v.push(110);
    v.push(99);
    v.push(108);
    v.push(117);
    v.push(100);
    v.push(101);
    assert(v@ =~= inclusion_name());
    v
}

/// Whether a tag name opens with the instruction namespace prefix.
pub fn has_esi_prefix(name: &Vec<u8>) -> (r: bool)
    ensures
        r == is_esi_name(name@),
{
    if name.len() < 4 {
        return false;
    }
    let r = name[0] == 101 && name[1] == 115 && name[2] == 105 && name[3] == 58;
    proof {
        if r {
            assert(name@.subrange(0, 4) =~= esi_prefix());
        } else {
            if name@.subrange(0, 4) == esi_prefix() {
                assert(name@[0] == esi_prefix()[0]);
                assert(name@[1] == esi_prefix()[1]);
                assert(name@[2] == esi_prefix()[2]);
                assert(name@[3] == esi_prefix()[3]);
            }
        }
    }
    r
}

// ---------------------------------------------------------------------------
// Tags and entries
// ---------------------------------------------------------------------------

/// One recognized instruction tag: its full name, its attribute mapping
/// (keys unique), and an optional embedded body, unused by the two
/// supported instructions but reserved for instructions that carry one.
#[derive(Debug)]
pub struct Tag {
    pub name: Vec<u8>,
    pub content: Option<Vec<u8>>,
    pub parameters: Vec<(Vec<u8>, Vec<u8>)>,
}

/// The mathematical model of a [`Tag`].
pub struct SpecTag {
    pub name: Seq<u8>,
    pub content: Option<Seq<u8>>,
    pub parameters: Seq<(Seq<u8>, Seq<u8>)>,
}

impl View for Tag {
    type V = SpecTag;

    open spec fn view(&self) -> SpecTag {
        SpecTag {
            name: self.name@,
            content: match self.content {
                Option::Some(c) => Option::Some(c@),
                Option::None => Option::None,
            },
            parameters: pairs_view(self.parameters@),
        }
    }
}

/// The first value bound to `key`, if any.
pub open spec fn spec_lookup(pairs: Seq<(Seq<u8>, Seq<u8>)>, key: Seq<u8>) -> Option<Seq<u8>>
    decreases pairs.len(),
{
    if pairs.len() == 0 {
        Option::None
    } else if pairs[0].0 == key {
        Option::Some(pairs[0].1)
    } else {
        spec_lookup(pairs.drop_first(), key)
    }
}

impl Tag {
    /// The value of the parameter named `key`, if the tag carries it.
    pub fn get_param(&self, key: &Vec<u8>) -> (r: Option<Vec<u8>>)
        ensures
            r matches Option::Some(v) ==> spec_lookup(self@.parameters, key@) == Option::Some(v@),
            r is None ==> spec_lookup(self@.parameters, key@) is None,
    {
        let ghost full = pairs_view(self.parameters@);
        let mut n: usize = 0;
        assert(full.skip(0) =~= full);
        while n < self.parameters.len()
            invariant
                n <= self.parameters@.len(),
                full == pairs_view(self.parameters@),
                spec_lookup(full, key@) == spec_lookup(full.skip(n as int), key@),
            decreases self.parameters@.len() - n,
        {
            let ghost remaining = full.skip(n as int);
            assert(remaining[0] == (self.parameters@[n as int].0@, self.parameters@[n as int].1@));
            assert(remaining.drop_first() =~= full.skip(n as int + 1));
            if bytes_eq(&self.parameters[n].0, key) {
                let v = crate::attrs::copy_whole(&self.parameters[n].1);
                return Option::Some(v);
            }
            n = n + 1;
        }
        assert(full.skip(n as int) =~= Seq::<(Seq<u8>, Seq<u8>)>::empty());
        Option::None
    }
}

/// One entry of the parsed document: either a markup event kept verbatim
/// (its exact raw bytes), or a recognized instruction.
#[derive(Debug)]
pub enum TagEntry {
    Passthrough(Vec<u8>),
    Instruction(Tag),
}

/// The mathematical model of a [`TagEntry`].
pub enum SpecEntry {
    Passthrough(Seq<u8>),
    Instruction(SpecTag),
}

impl View for TagEntry {
    type V = SpecEntry;

    open spec fn view(&self) -> SpecEntry {
        match self {
            TagEntry::Passthrough(raw) => SpecEntry::Passthrough(raw@),
            TagEntry::Instruction(tag) => SpecEntry::Instruction(tag@),
        }
    }
}

/// The view of an executable entry list.
pub open spec fn entries_view(v: Seq<TagEntry>) -> Seq<SpecEntry> {
    v.map_values(|e: TagEntry| e@)
}

// ---------------------------------------------------------------------------
// The filter state machine
// ---------------------------------------------------------------------------

/// The attribute extractor applied to a raw attribute region: pairs cut
/// out of the region, then names checked for uniqueness.
pub open spec fn spec_attributes(attrs: Seq<u8>) -> Result<Seq<(Seq<u8>, Seq<u8>)>, SpecError> {
    match spec_attr_tokens(attrs, 0) {
        Option::None => Err(SpecError::Xml),
        Option::Some(pairs) => match spec_dedup(pairs, Seq::empty()) {
            Ok(ps) => Ok(ps),
            Err(k) => Err(SpecError::DuplicateAttr(k)),
        },
    }
}

/// A tag whose attribute region carries a repeated attribute name always
/// yields the duplicate-attribute error, whatever the count or position
/// of its attributes, and the name reported indeed repeats.
pub proof fn lemma_repeated_attribute_always_rejected(attrs: Seq<u8>)
    requires
        spec_attr_tokens(attrs, 0) matches Option::Some(pairs) && !crate::attrs::distinct_keys(
            pairs,
        ),
    ensures
        spec_attributes(attrs) matches Err(e) && (e matches SpecError::DuplicateAttr(k)
            && crate::attrs::contains_dup(spec_attr_tokens(attrs, 0)->Some_0, k)),
{
    crate::attrs::lemma_duplicate_attribute_rejected(spec_attr_tokens(attrs, 0)->Some_0);
}

/// A tag whose attribute region carries pairwise distinct names passes
/// the attribute extractor unchanged.
pub proof fn lemma_distinct_attributes_always_accepted(attrs: Seq<u8>)
    requires
        spec_attr_tokens(attrs, 0) matches Option::Some(pairs) && crate::attrs::distinct_keys(
            pairs,
        ),
    ensures
        spec_attributes(attrs) == Ok::<_, SpecError>(spec_attr_tokens(attrs, 0)->Some_0),
{
    crate::attrs::lemma_distinct_attributes_accepted(spec_attr_tokens(attrs, 0)->Some_0);
}

/// Prepends an entry to the result of filtering the rest of the stream.
pub open spec fn prepend_entry(
    e: SpecEntry,
    r: Result<Seq<SpecEntry>, SpecError>,
) -> Result<Seq<SpecEntry>, SpecError> {
    match r {
        Ok(es) => Ok(seq![e] + es),
        Err(x) => Err(x),
    }
}

/// The entry list produced from an event stream, starting in the given
/// remove-block state.
///
/// A start tag named exactly `esi:remove` enters the removing state; the
/// matching end tag leaves it, and is a fatal error when seen outside it.
/// While removing, every other event is discarded. Outside a remove
/// block, a self-closing tag whose name carries the `esi:` prefix and is
/// not the remove tag becomes an instruction entry, its attribute region
/// run through the attribute extractor; every other event passes through
/// verbatim.
pub open spec fn spec_filter(events: Seq<SpecEvent>, in_remove: bool) -> Result<
    Seq<SpecEntry>,
    SpecError,
>
    decreases events.len(),
{
    if events.len() == 0 {
        Ok(Seq::empty())
    } else {
        let ev = events[0];
        let rest = events.drop_first();
        match ev {
            SpecEvent::Start { name, raw } => {
                if name == remove_name() {
                    spec_filter(rest, true)
                } else if in_remove {
                    spec_filter(rest, true)
                } else {
                    prepend_entry(SpecEntry::Passthrough(raw), spec_filter(rest, false))
                }
            },
            SpecEvent::End { name, raw } => {
                if name == remove_name() {
                    if in_remove {
                        spec_filter(rest, false)
                    } else {
                        Err(SpecError::UnexpectedClosing(name))
                    }
                } else if in_remove {
                    spec_filter(rest, true)
                } else {
                    prepend_entry(SpecEntry::Passthrough(raw), spec_filter(rest, false))
                }
            },
            SpecEvent::SelfClosed { name, attrs, raw } => {
                if in_remove {
                    spec_filter(rest, true)
                } else if is_esi_name(name) && name != remove_name() {
                    match spec_attributes(attrs) {
                        Err(e) => Err(e),
                        Ok(params) => prepend_entry(
                            SpecEntry::Instruction(
                                SpecTag { name, content: Option::None, parameters: params },
                            ),
                            spec_filter(rest, false),
                        ),
                    }
                } else {
                    prepend_entry(SpecEntry::Passthrough(raw), spec_filter(rest, false))
                }
            },
            SpecEvent::Other { raw } => {
                if in_remove {
                    spec_filter(rest, true)
                } else {
                    prepend_entry(SpecEntry::Passthrough(raw), spec_filter(rest, false))
                }
            },
        }
    }
}

/// The parse of a whole document: its event stream filtered from the
/// normal state; failing to tokenize is a markup syntax error.
pub open spec fn spec_parse(doc: Seq<u8>) -> Result<Seq<SpecEntry>, SpecError> {
    match spec_events_from(doc, 0) {
        Option::None => Err(SpecError::Xml),
        Option::Some(evs) => spec_filter(evs, false),
    }
}

// ---------------------------------------------------------------------------
// The executable parser
// ---------------------------------------------------------------------------

/// The view of an executable event list.
pub open spec fn events_view(v: Seq<XmlEvent>) -> Seq<SpecEvent> {
    v.map_values(|e: XmlEvent| e@)
}

/// Reads the whole event stream of a document into memory, or fails on
/// the first malformed markup.
pub fn tokenize(doc: &Vec<u8>) -> (r: Result<Vec<XmlEvent>, ExecutionError>)
    ensures
        r matches Ok(evs) ==> spec_events_from(doc@, 0) == Option::Some(events_view(evs@)),
        r matches Err(e) ==> spec_events_from(doc@, 0) is None && e@ == SpecError::Xml,
{
    let mut events: Vec<XmlEvent> = Vec::new();
    let mut pos: usize = 0;
    loop
        invariant
            pos <= doc@.len(),
            spec_events_from(doc@, pos as int) matches Option::Some(rest) ==> spec_events_from(
                doc@,
                0,
            ) == Option::Some(events_view(events@) + rest),
            spec_events_from(doc@, pos as int) is None ==> spec_events_from(doc@, 0) is None,
        decreases doc@.len() - pos,
    {
        if pos >= doc.len() {
            assert(spec_events_from(doc@, pos as int) == Option::Some(Seq::<SpecEvent>::empty()));
            assert(events_view(events@) + Seq::<SpecEvent>::empty() =~= events_view(events@));
            return Ok(events);
        }
        proof {
            lemma_events_from_step(doc@, pos as int);
        }
        match next_event(doc, pos) {
            Option::None => {
                return Err(ExecutionError::XMLError);
            },
            Option::Some((ev, np)) => {
                proof {
                    let tail = spec_events_from(doc@, np as int);
                    if tail is Some {
                        assert(events_view(events@.push(ev)) =~= events_view(events@).push(ev@))
                            by {
                            assert(events_view(events@.push(ev)).len() == events@.len() + 1);
                        }
                        assert(events_view(events@.push(ev)) + tail->Some_0 =~= events_view(
                            events@,
                        ) + (seq![ev@] + tail->Some_0));
                    }
                }
                events.push(ev);
                pos = np;
            },
        }
    }
}

/// Filters an event list into the ordered entry list, applying the
/// remove-block state machine and the instruction recognition rule.
pub fn filter_entries(events: Vec<XmlEvent>) -> (r: Result<Vec<TagEntry>, ExecutionError>)
    ensures
        r matches Ok(es) ==> spec_filter(events_view(events@), false) == Ok::<_, SpecError>(
            entries_view(es@),
        ),
        r matches Err(e) ==> spec_filter(events_view(events@), false) matches Err(se) && e@ == se,
{
    let ghost full = events_view(events@);
    let mut entries: Vec<TagEntry> = Vec::new();
    let mut in_remove = false;
    let mut idx: usize = 0;
    let remove_tag = remove_name_vec();
    assert(full.skip(0) =~= full);
    while idx < events.len()
        invariant
            idx <= events@.len(),
            full == events_view(events@),
            remove_tag@ == remove_name(),
            match spec_filter(full.skip(idx as int), in_remove) {
                Ok(rest_entries) => spec_filter(full, false) == Ok::<_, SpecError>(
                    entries_view(entries@) + rest_entries,
                ),
                Err(e) => spec_filter(full, false) == Err::<Seq<SpecEntry>, _>(e),
            },
        decreases events@.len() - idx,
    {
        let ghost remaining = full.skip(idx as int);
        proof {
            assert(remaining[0] == events@[idx as int]@);
            assert(remaining.drop_first() =~= full.skip(idx as int + 1));
        }
        let ev = &events[idx];
        match ev {
            XmlEvent::Start { name, raw } => {
                if bytes_eq(name, &remove_tag) {
                    in_remove = true;
                } else if in_remove {
                    // Discarded: the event stands inside a remove block.
                } else {
                    let owned = crate::attrs::copy_whole(raw);
                    let ghost e = SpecEntry::Passthrough(owned@);
                    proof {
                        lemma_push_entry(entries@, e);
                    }
                    entries.push(TagEntry::Passthrough(owned));
                }
            },
            XmlEvent::End { name, raw } => {
                if bytes_eq(name, &remove_tag) {
                    if in_remove {
                        in_remove = false;
                    } else {
                        let owned = crate::attrs::copy_whole(name);
                        return Err(ExecutionError::UnexpectedClosingTag(owned));
                    }
                } else if in_remove {
                    // Discarded inside the remove block.
                } else {
                    let owned = crate::attrs::copy_whole(raw);
                    let ghost e = SpecEntry::Passthrough(owned@);
                    proof {
                        lemma_push_entry(entries@, e);
                    }
                    entries.push(TagEntry::Passthrough(owned));
                }
            },
            XmlEvent::SelfClosed { name, attrs, raw } => {
                if in_remove {
                    // Discarded inside the remove block.
                } else if has_esi_prefix(name) && !bytes_eq(name, &remove_tag) {
                    let toks = match attr_tokens(attrs) {
                        Ok(t) => t,
                        Err(e) => {
                            return Err(e);
                        },
                    };
                    let params = match parse_attributes(toks) {
                        Ok(p) => p,
                        Err(e) => {
                            return Err(e);
                        },
                    };
                    let owned_name = crate::attrs::copy_whole(name);
                    let tag = Tag { name: owned_name, content: Option::None, parameters: params };
                    let ghost e = SpecEntry::Instruction(tag@);
                    proof {
                        lemma_push_entry(entries@, e);
                    }
                    entries.push(TagEntry::Instruction(tag));
                } else {
                    let owned = crate::attrs::copy_whole(raw);
                    let ghost e = SpecEntry::Passthrough(owned@);
                    proof {
                        lemma_push_entry(entries@, e);
                    }
                    entries.push(TagEntry::Passthrough(owned));
                }
            },
            XmlEvent::Other { raw } => {
                if in_remove {
                    // Discarded inside the remove block.
                } else {
                    let owned = crate::attrs::copy_whole(raw);
                    let ghost e = SpecEntry::Passthrough(owned@);
                    proof {
                        lemma_push_entry(entries@, e);
                    }
                    entries.push(TagEntry::Passthrough(owned));
                }
            },
        }
        idx = idx + 1;
    }
    assert(full.skip(idx as int) =~= Seq::<SpecEvent>::empty());
    assert(entries_view(entries@) + Seq::<SpecEntry>::empty() =~= entries_view(entries@));
    Ok(entries)
}

/// Parses a document into its ordered entry list, or fails with the first
/// fatal condition: malformed markup, a duplicate attribute on an
/// instruction tag, or an unmatched remove-block end tag.
pub fn parse_tag_entries(doc: &Vec<u8>) -> (r: Result<Vec<TagEntry>, ExecutionError>)
    ensures
        r matches Ok(es) ==> spec_parse(doc@) == Ok::<_, SpecError>(entries_view(es@)),
        r matches Err(e) ==> spec_parse(doc@) matches Err(se) && e@ == se,
{
    let events = match tokenize(doc) {
        Ok(evs) => evs,
        Err(e) => {
            return Err(e);
        },
    };
    filter_entries(events)
}

// ---------------------------------------------------------------------------
// Laws of the parser
// ---------------------------------------------------------------------------

/// Whether the event is one the filter treats specially: a remove-block
/// start or end tag, or a recognized instruction tag.
pub open spec fn is_esi_event(ev: SpecEvent) -> bool {
    match ev {
        SpecEvent::Start { name, .. } => name == remove_name(),
        SpecEvent::End { name, .. } => name == remove_name(),
        SpecEvent::SelfClosed { name, .. } => is_esi_name(name) && name != remove_name(),
        SpecEvent::Other { .. } => false,
    }
}

/// Every event kept verbatim, in order.
pub open spec fn passthrough_of(events: Seq<SpecEvent>) -> Seq<SpecEntry> {
    events.map_values(|ev: SpecEvent| SpecEntry::Passthrough(event_raw(ev)))
}

/// An event stream without instruction tags or remove-block tags filters
/// to its events kept verbatim, in order, and nothing fails.
pub proof fn lemma_filter_all_passthrough(events: Seq<SpecEvent>)
    requires
        forall|k: int| 0 <= k < events.len() ==> !is_esi_event(#[trigger] events[k]),
    ensures
        spec_filter(events, false) == Ok::<_, SpecError>(passthrough_of(events)),
    decreases events.len(),
{
    if events.len() == 0 {
        assert(passthrough_of(events) =~= Seq::<SpecEntry>::empty());
    } else {
        let rest = events.drop_first();
        assert forall|k: int| 0 <= k < rest.len() implies !is_esi_event(#[trigger] rest[k]) by {
            assert(rest[k] == events[k + 1]);
        }
        lemma_filter_all_passthrough(rest);
        assert(!is_esi_event(events[0]));
        assert(passthrough_of(events) =~= seq![
            SpecEntry::Passthrough(event_raw(events[0])),
        ] + passthrough_of(rest));
    }
}

/// Whether a remove-block start tag opens this event.
pub open spec fn is_remove_start(ev: SpecEvent) -> bool {
    ev matches SpecEvent::Start { name, .. } && name == remove_name()
}

/// Whether a remove-block end tag closes at this event.
pub open spec fn is_remove_end(ev: SpecEvent) -> bool {
    ev matches SpecEvent::End { name, .. } && name == remove_name()
}

/// The remove-block state after consuming one event: a remove-block
/// start tag enters the removing state, a remove-block end tag leaves
/// it, every other event keeps it.
pub open spec fn step_remove_state(state: bool, ev: SpecEvent) -> bool {
    if is_remove_start(ev) {
        true
    } else if is_remove_end(ev) {
        false
    } else {
        state
    }
}

/// The remove-block state after consuming a whole event sequence.
pub open spec fn filter_state(events: Seq<SpecEvent>, state: bool) -> bool
    decreases events.len(),
{
    if events.len() == 0 {
        state
    } else {
        filter_state(events.drop_first(), step_remove_state(state, events[0]))
    }
}

/// Filtering a concatenation: the first part is filtered from the given
/// state; when it succeeds, the second part is filtered from the state
/// the first part left behind, and the entry lists concatenate.
pub proof fn lemma_filter_append(a: Seq<SpecEvent>, b: Seq<SpecEvent>, s0: bool)
    ensures
        spec_filter(a + b, s0) == (match spec_filter(a, s0) {
            Err(e) => Err::<Seq<SpecEntry>, SpecError>(e),
            Ok(ea) => match spec_filter(b, filter_state(a, s0)) {
                Err(e) => Err::<Seq<SpecEntry>, SpecError>(e),
                Ok(eb) => Ok(ea + eb),
            },
        }),
    decreases a.len(),
{
    if a.len() == 0 {
        assert(a + b =~= b);
        match spec_filter(b, s0) {
            Ok(eb) => {
                assert(Seq::<SpecEntry>::empty() + eb =~= eb);
            },
            Err(_) => {},
        }
    } else {
        let rest = a.drop_first();
        let ev = a[0];
        assert((a + b)[0] == ev);
        assert((a + b).drop_first() =~= rest + b);
        match ev {
            SpecEvent::Start { name, raw } => {
                if name == remove_name() {
                    lemma_filter_append(rest, b, true);
                } else if s0 {
                    lemma_filter_append(rest, b, true);
                } else {
                    lemma_filter_append(rest, b, false);
                    lemma_append_prepend(SpecEntry::Passthrough(raw), rest, b, false);
                }
            },
            SpecEvent::End { name, raw } => {
                if name == remove_name() {
                    if s0 {
                        lemma_filter_append(rest, b, false);
                    }
                } else if s0 {
                    lemma_filter_append(rest, b, true);
                } else {
                    lemma_filter_append(rest, b, false);
                    lemma_append_prepend(SpecEntry::Passthrough(raw), rest, b, false);
                }
            },
            SpecEvent::SelfClosed { name, attrs, raw } => {
                if s0 {
                    lemma_filter_append(rest, b, true);
                } else if is_esi_name(name) && name != remove_name() {
                    match spec_attributes(attrs) {
                        Err(_) => {},
                        Ok(params) => {
                            lemma_filter_append(rest, b, false);
                            lemma_append_prepend(
                                SpecEntry::Instruction(
                                    SpecTag { name, content: Option::None, parameters: params },
                                ),
                                rest,
                                b,
                                false,
                            );
                        },
                    }
                } else {
                    lemma_filter_append(rest, b, false);
                    lemma_append_prepend(SpecEntry::Passthrough(raw), rest, b, false);
                }
            },
            SpecEvent::Other { raw } => {
                if s0 {
                    lemma_filter_append(rest, b, true);
                } else {
                    lemma_filter_append(rest, b, false);
                    lemma_append_prepend(SpecEntry::Passthrough(raw), rest, b, false);
                }
            },
        }
    }
}

/// Pushes a pending entry through the composition equation of
/// [`lemma_filter_append`].
proof fn lemma_append_prepend(x: SpecEntry, rest: Seq<SpecEvent>, b: Seq<SpecEvent>, st: bool)
    requires
        spec_filter(rest + b, st) == (match spec_filter(rest, st) {
            Err(e) => Err::<Seq<SpecEntry>, SpecError>(e),
            Ok(ea) => match spec_filter(b, filter_state(rest, st)) {
                Err(e) => Err::<Seq<SpecEntry>, SpecError>(e),
                Ok(eb) => Ok(ea + eb),
            },
        }),
    ensures
        prepend_entry(x, spec_filter(rest + b, st)) == (match prepend_entry(
            x,
            spec_filter(rest, st),
        ) {
            Err(e) => Err::<Seq<SpecEntry>, SpecError>(e),
            Ok(ea) => match spec_filter(b, filter_state(rest, st)) {
                Err(e) => Err::<Seq<SpecEntry>, SpecError>(e),
                Ok(eb) => Ok(ea + eb),
            },
        }),
{
    match spec_filter(rest, st) {
        Ok(ea) => {
            match spec_filter(b, filter_state(rest, st)) {
                Ok(eb) => {
                    assert(seq![x] + (ea + eb) =~= (seq![x] + ea) + eb);
                },
                Err(_) => {},
            }
        },
        Err(_) => {},
    }
}

/// A remove-block end tag reached in the normal state is always fatal:
/// whatever stands before it — balanced remove blocks included — so long
/// as it filters without failing and leaves the machine outside a remove
/// block, and whatever markup follows, filtering fails with the
/// unexpected-closing-tag error.
pub proof fn lemma_unmatched_remove_end(
    before: Seq<SpecEvent>,
    closing: SpecEvent,
    after: Seq<SpecEvent>,
)
    requires
        is_remove_end(closing),
        spec_filter(before, false) is Ok,
        filter_state(before, false) == false,
    ensures
        spec_filter(before + seq![closing] + after, false) == Err::<Seq<SpecEntry>, _>(
            SpecError::UnexpectedClosing(remove_name()),
        ),
{
    lemma_filter_append(before, seq![closing] + after, false);
    assert(before + seq![closing] + after =~= before + (seq![closing] + after));
    assert((seq![closing] + after)[0] == closing);
    assert((seq![closing] + after).drop_first() =~= after);
    assert(spec_filter(seq![closing] + after, false) == Err::<Seq<SpecEntry>, SpecError>(
        SpecError::UnexpectedClosing(remove_name()),
    ));
}

/// A well-formed remove block produces no entries, whatever markup it
/// encloses: so long as the enclosed events hold no remove-block end tag
/// of their own, and whatever stands before the block (provided it
/// leaves the machine outside a remove block) and after it, the stream
/// filters exactly as if the whole block were absent.
pub proof fn lemma_remove_block_elided(
    before: Seq<SpecEvent>,
    opening: SpecEvent,
    inner: Seq<SpecEvent>,
    closing: SpecEvent,
    after: Seq<SpecEvent>,
)
    requires
        is_remove_start(opening),
        is_remove_end(closing),
        forall|j: int| 0 <= j < inner.len() ==> !is_remove_end(#[trigger] inner[j]),
        filter_state(before, false) == false,
    ensures
        spec_filter(before + seq![opening] + inner + seq![closing] + after, false) == spec_filter(
            before + after,
            false,
        ),
{
    let block_then = seq![opening] + inner + seq![closing] + after;
    lemma_filter_append(before, block_then, false);
    lemma_filter_append(before, after, false);
    assert(before + seq![opening] + inner + seq![closing] + after =~= before + block_then);
    assert(block_then[0] == opening);
    assert(block_then.drop_first() =~= inner + seq![closing] + after);
    lemma_remove_scan(inner, closing, after);
    assert(spec_filter(block_then, false) == spec_filter(after, false));
}

/// While in the removing state, everything up to and through the closing
/// tag vanishes and filtering resumes normally after it.
proof fn lemma_remove_scan(inner: Seq<SpecEvent>, closing: SpecEvent, after: Seq<SpecEvent>)
    requires
        is_remove_end(closing),
        forall|j: int| 0 <= j < inner.len() ==> !is_remove_end(#[trigger] inner[j]),
    ensures
        spec_filter(inner + seq![closing] + after, true) == spec_filter(after, false),
    decreases inner.len(),
{
    let whole = inner + seq![closing] + after;
    if inner.len() == 0 {
        assert(whole[0] == closing);
        assert(whole.drop_first() =~= after);
    } else {
        assert(whole[0] == inner[0]);
        assert(whole.drop_first() =~= inner.drop_first() + seq![closing] + after);
        assert forall|j: int|
            0 <= j < inner.drop_first().len() implies !is_remove_end(
            #[trigger] inner.drop_first()[j],
        ) by {
            assert(inner.drop_first()[j] == inner[j + 1]);
        }
        lemma_remove_scan(inner.drop_first(), closing, after);
        assert(!is_remove_end(inner[0]));
    }
}

/// Pushing an entry commutes with taking views, and shifts a pending
/// prepend into the accumulated list.
proof fn lemma_push_entry(entries: Seq<TagEntry>, e: SpecEntry)
    ensures
        forall|x: TagEntry, rest: Seq<SpecEntry>| #![all_triggers] x@ == e ==> entries_view(
            entries.push(x),
        ) + rest =~= entries_view(entries) + (seq![e] + rest),
{
    assert forall|x: TagEntry, rest: Seq<SpecEntry>| x@ == e implies entries_view(entries.push(x))
        + rest =~= entries_view(entries) + (seq![e] + rest) by {
        assert(entries_view(entries.push(x)).len() == entries.len() + 1);
        assert(entries_view(entries.push(x)) =~= entries_view(entries).push(e));
    }
}

} // verus!
