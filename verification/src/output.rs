//! The output assembler and the transform entry point.
//!
//! The entry list is re-serialized in original order: passthrough markup
//! is emitted byte-for-byte as it stood in the source, and each
//! instruction position is replaced by its resolved content slot (or by
//! nothing when the slot is empty). The transform chains the parser, the
//! executor and the assembler; every fatal condition aborts the whole
//! call with an error and no partial output.

use vstd::prelude::*;

use crate::entries::SpecEntry;
use crate::entries::TagEntry;
use crate::entries::entries_view;
use crate::entries::is_esi_event;
use crate::entries::lemma_filter_all_passthrough;
use crate::entries::parse_tag_entries;
use crate::entries::passthrough_of;
use crate::entries::spec_lookup;
use crate::entries::spec_parse;
use crate::errors::ExecutionError;
use crate::errors::SpecError;
use crate::fetch::ExecutionContext;
use crate::fetch::entry_tag;
use crate::fetch::execute_tag_entries;
use crate::fetch::instruction_ident;
use crate::fetch::missing_src_unavoidable;
use crate::fetch::is_inclusion;
use crate::fetch::src_name;
use crate::scan::SpecEvent;
use crate::scan::concat_raws;
use crate::scan::event_raw;
use crate::scan::lemma_events_tile;
use crate::scan::spec_events_from;

verus! {

// ---------------------------------------------------------------------------
// Assembling the final document
// ---------------------------------------------------------------------------

/// The view of an executable slot list.
pub open spec fn slots_view(v: Seq<Option<Vec<u8>>>) -> Seq<Option<Seq<u8>>> {
    v.map_values(
        |o: Option<Vec<u8>>|
            match o {
                Option::Some(c) => Option::Some(c@),
                Option::None => Option::None,
            },
    )
}

/// The assembled document of an entry list and its content slots, in
/// original order: a passthrough entry contributes its exact raw bytes,
/// an instruction its slot's content, or nothing when the slot is empty.
pub open spec fn spec_assemble(entries: Seq<SpecEntry>, slots: Seq<Option<Seq<u8>>>) -> Seq<u8>
    recommends
        slots.len() == entries.len(),
    decreases entries.len(),
{
    if entries.len() == 0 {
        Seq::empty()
    } else {
        let head = match entries[0] {
            SpecEntry::Passthrough(raw) => raw,
            SpecEntry::Instruction(_) => match slots[0] {
                Option::Some(c) => c,
                Option::None => Seq::empty(),
            },
        };
        head + spec_assemble(entries.drop_first(), slots.drop_first())
    }
}

/// Appends the bytes of `add` to `out`.
pub fn append_bytes(out: &mut Vec<u8>, add: &Vec<u8>)
    ensures
        final(out)@ == old(out)@ + add@,
{
    let mut k: usize = 0;
    while k < add.len()
        invariant
            k <= add@.len(),
            out@ == old(out)@ + add@.subrange(0, k as int),
        decreases add@.len() - k,
    {
        out.push(add[k]);
        assert(old(out)@ + add@.subrange(0, k + 1 as int) =~= (old(out)@ + add@.subrange(
            0,
            k as int,
        )).push(add@[k as int]));
        k = k + 1;
    }
    assert(old(out)@ + add@.subrange(0, add@.len() as int) =~= old(out)@ + add@);
}

/// Re-serializes the entry list, splicing each filled slot's content in
/// at its instruction's position.
pub fn assemble_output(entries: &Vec<TagEntry>, slots: &Vec<Option<Vec<u8>>>) -> (out: Vec<u8>)
    requires
        slots@.len() == entries@.len(),
    ensures
        out@ == spec_assemble(entries_view(entries@), slots_view(slots@)),
{
    let ghost es = entries_view(entries@);
    let ghost sv = slots_view(slots@);
    let mut out: Vec<u8> = Vec::new();
    let mut idx: usize = 0;
    assert(es.skip(0) =~= es);
    assert(sv.skip(0) =~= sv);
    while idx < entries.len()
        invariant
            idx <= entries@.len(),
            slots@.len() == entries@.len(),
            es == entries_view(entries@),
            sv == slots_view(slots@),
            spec_assemble(es, sv) == out@ + spec_assemble(es.skip(idx as int), sv.skip(idx as int)),
        decreases entries@.len() - idx,
    {
        let ghost rem_e = es.skip(idx as int);
        let ghost rem_s = sv.skip(idx as int);
        proof {
            assert(rem_e[0] == entries@[idx as int]@);
            assert(rem_s[0] == sv[idx as int]);
            assert(rem_e.drop_first() =~= es.skip(idx as int + 1));
            assert(rem_s.drop_first() =~= sv.skip(idx as int + 1));
        }
        let ghost tail = spec_assemble(rem_e.drop_first(), rem_s.drop_first());
        match &entries[idx] {
            TagEntry::Passthrough(raw) => {
                assert(spec_assemble(rem_e, rem_s) == raw@ + tail);
                append_bytes(&mut out, raw);
            },
            TagEntry::Instruction(_) => {
                match &slots[idx] {
                    Option::Some(content) => {
                        assert(spec_assemble(rem_e, rem_s) == content@ + tail);
                        append_bytes(&mut out, content);
                    },
                    Option::None => {
                        assert(spec_assemble(rem_e, rem_s) == Seq::<u8>::empty() + tail);
                        assert(spec_assemble(rem_e, rem_s) =~= tail);
                    },
                }
            },
        }
        proof {
            assert(spec_assemble(es, sv) =~= out@ + spec_assemble(
                es.skip(idx as int + 1),
                sv.skip(idx as int + 1),
            ));
        }
        idx = idx + 1;
    }
    assert(es.skip(idx as int) =~= Seq::<SpecEntry>::empty());
    assert(out@ + Seq::<u8>::empty() =~= out@);
    out
}

// ---------------------------------------------------------------------------
// The transform
// ---------------------------------------------------------------------------

/// Whether the document holds no instruction of the namespace at all: it
/// tokenizes cleanly and no event is a remove-block tag or a recognized
/// instruction tag.
pub open spec fn no_esi_instructions(doc: Seq<u8>) -> bool {
    spec_events_from(doc, 0) matches Option::Some(evs) && (forall|k: int|
        0 <= k < evs.len() ==> !is_esi_event(#[trigger] evs[k]))
}

/// Whether a slot list lines up with an entry list the way the executor
/// produces it: same length, exactly the fragment-inclusion instructions
/// have their slot filled, and every such instruction carried its
/// required location parameter.
pub open spec fn valid_slots(entries: Seq<SpecEntry>, slots: Seq<Option<Seq<u8>>>) -> bool {
    &&& slots.len() == entries.len()
    &&& forall|i: int|
        0 <= i < entries.len() ==> ((slots[i] is Some) <==> is_inclusion(#[trigger] entries[i]))
    &&& forall|i: int|
        0 <= i < entries.len() && is_inclusion(#[trigger] entries[i]) ==> spec_lookup(
            entry_tag(entries[i]).parameters,
            src_name(),
        ) is Some
}

/// Assembling passthrough-only entries yields the concatenation of their
/// raw bytes, whatever the slots hold.
proof fn lemma_assemble_passthrough(evs: Seq<SpecEvent>, sv: Seq<Option<Seq<u8>>>)
    ensures
        spec_assemble(passthrough_of(evs), sv) == concat_raws(evs),
    decreases evs.len(),
{
    if evs.len() > 0 {
        assert(passthrough_of(evs)[0] == SpecEntry::Passthrough(event_raw(evs[0])));
        assert(passthrough_of(evs).drop_first() =~= passthrough_of(evs.drop_first()));
        lemma_assemble_passthrough(evs.drop_first(), sv.drop_first());
    }
}

/// A document without instructions is a fixed point of the transform:
/// it parses into passthrough entries only, none of them a
/// fragment-inclusion instruction, and re-assembles to itself whatever
/// the content slots hold. Applying the transform to such a document any
/// number of times therefore returns it unchanged.
pub proof fn lemma_no_esi_fixed_point(doc: Seq<u8>)
    requires
        no_esi_instructions(doc),
    ensures
        spec_parse(doc) matches Ok(es) && es == passthrough_of(spec_events_from(doc, 0)->Some_0)
            && (forall|i: int| 0 <= i < es.len() ==> !is_inclusion(#[trigger] es[i])) && (forall|
            sv: Seq<Option<Seq<u8>>>,
        | #[trigger] spec_assemble(es, sv) == doc),
{
    let evs = spec_events_from(doc, 0)->Some_0;
    lemma_filter_all_passthrough(evs);
    let es = passthrough_of(evs);
    lemma_events_tile(doc, 0);
    assert(doc.subrange(0, doc.len() as int) =~= doc);
    assert(concat_raws(evs) == doc);
    assert forall|i: int| 0 <= i < es.len() implies !is_inclusion(#[trigger] es[i]) by {
        assert(es[i] == SpecEntry::Passthrough(event_raw(evs[i])));
    }
    assert forall|sv: Seq<Option<Seq<u8>>>| #[trigger] spec_assemble(es, sv) == doc by {
        lemma_assemble_passthrough(evs, sv);
    }
}

/// Processes a document: parses it into the ordered entry list, executes
/// every fragment-inclusion instruction through the given fetch
/// collaborator, and assembles the final document.
///
/// Every fatal condition aborts the whole call with no partial output. A
/// parse failure surfaces exactly as the parse model says. When the
/// first fragment-inclusion instruction lacks its required location
/// parameter, the call fails with the missing-parameter error naming
/// that tag, whatever the collaborator does. A document holding no
/// instructions at all comes back unchanged, byte for byte. On success
/// the output is the assembly of the parsed entries with a slot list
/// that lines up with them.
pub fn transform_esi_string<C: ExecutionContext>(doc: &Vec<u8>, client: &C) -> (r: Result<
    Vec<u8>,
    ExecutionError,
>)
    ensures
        spec_parse(doc@) matches Err(se) ==> (r matches Err(e) && e@ == se),
        r matches Ok(out) ==> (spec_parse(doc@) matches Ok(es) && exists|sv: Seq<Option<Seq<u8>>>|
            #[trigger] valid_slots(es, sv) && out@ == spec_assemble(es, sv)),
        no_esi_instructions(doc@) ==> (r matches Ok(out) && out@ == doc@),
        spec_parse(doc@) matches Ok(es) ==> (forall|k: int| #[trigger]
            missing_src_unavoidable(es, k) ==> (r matches Err(e) && e@
                == SpecError::MissingParam(instruction_ident(entry_tag(es[k]).name), src_name()))),
        spec_parse(doc@) matches Ok(es) ==> ((forall|i: int|
            0 <= i < es.len() ==> !is_inclusion(#[trigger] es[i])) ==> (r matches Ok(out) && out@
            == spec_assemble(es, Seq::new(es.len(), |i: int| Option::None::<Seq<u8>>)))),
{
    let entries = match parse_tag_entries(doc) {
        Ok(es) => es,
        Err(e) => {
            proof {
                if no_esi_instructions(doc@) {
                    lemma_no_esi_fixed_point(doc@);
                }
            }
            return Err(e);
        },
    };
    let resolved = match execute_tag_entries(&entries, client) {
        Ok(res) => res,
        Err(e) => {
            proof {
                if no_esi_instructions(doc@) {
                    lemma_no_esi_fixed_point(doc@);
                }
                let es = entries_view(entries@);
                if forall|i: int| 0 <= i < es.len() ==> !is_inclusion(#[trigger] es[i]) {
                    assert(forall|i: int|
                        0 <= i < entries@.len() ==> !is_inclusion(
                            #[trigger] entries_view(entries@)[i],
                        ));
                    assert(false);
                }
            }
            return Err(e);
        },
    };
    let (slots, _downgraded) = resolved;
    let out = assemble_output(&entries, &slots);
    proof {
        let es = entries_view(entries@);
        let sv = slots_view(slots@);
        assert(valid_slots(es, sv)) by {
            assert forall|i: int| 0 <= i < es.len() implies ((sv[i] is Some) <==> is_inclusion(
                #[trigger] es[i],
            )) by {
                assert((slots@[i] is Some) <==> is_inclusion(es[i]));
            }
        }
        if no_esi_instructions(doc@) {
            lemma_no_esi_fixed_point(doc@);
        }
        if forall|i: int| 0 <= i < es.len() ==> !is_inclusion(#[trigger] es[i]) {
            assert(sv =~= Seq::new(es.len(), |i: int| Option::None::<Seq<u8>>)) by {
                assert forall|i: int| 0 <= i < sv.len() implies sv[i] is None by {
                    assert(!is_inclusion(es[i]));
                }
            }
        }
    }
    Ok(out)
}

} // verus!
