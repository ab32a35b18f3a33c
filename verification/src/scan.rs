//! Markup tokenization.
//!
//! The document is a byte sequence. It is cut into a sequence of *events*,
//! each of which owns the exact slice of the document it came from: start
//! tags, end tags, self-closing tags, and everything else (text, comments,
//! character data sections, processing instructions, declarations). The
//! events tile the document: their raw slices concatenate back to it
//! byte-for-byte, which is what lets the assembler reproduce untouched
//! markup exactly.

use vstd::prelude::*;

verus! {

// ---------------------------------------------------------------------------
// Byte classes and low-level scanners
// ---------------------------------------------------------------------------

/// `<`
pub const LT: u8 = 60;

/// `>`
pub const GT: u8 = 62;

/// `/`
pub const SLASH: u8 = 47;

/// `!`
pub const BANG: u8 = 33;

/// `?`
pub const QMARK: u8 = 63;

/// `-`
pub const DASH: u8 = 45;

/// `[`
pub const LBRACK: u8 = 91;

/// `]`
pub const RBRACK: u8 = 93;

/// `"`
pub const DQUOTE: u8 = 34;

/// `'`
pub const SQUOTE: u8 = 39;

/// `=`
pub const EQUALS: u8 = 61;

/// Whitespace as the markup grammar knows it: space, tab, line feed,
/// carriage return.
pub open spec fn is_ws(c: u8) -> bool {
    c == 32 || c == 9 || c == 10 || c == 13
}

/// Executable whitespace test.
pub fn ws_byte(c: u8) -> (r: bool)
    ensures
        r == is_ws(c),
{
    c == 32 || c == 9 || c == 10 || c == 13
}

/// The first index at or after `from` holding byte `b`, or the length of
/// `doc` if there is none.
pub open spec fn find_byte(doc: Seq<u8>, from: int, b: u8) -> int
    decreases doc.len() - from,
{
    if from < 0 || from >= doc.len() {
        doc.len() as int
    } else if doc[from] == b {
        from
    } else {
        find_byte(doc, from + 1, b)
    }
}

pub proof fn lemma_find_byte(doc: Seq<u8>, from: int, b: u8)
    requires
        0 <= from <= doc.len(),
    ensures
        from <= find_byte(doc, from, b) <= doc.len(),
        find_byte(doc, from, b) < doc.len() ==> doc[find_byte(doc, from, b)] == b,
        forall|k: int| from <= k < find_byte(doc, from, b) ==> doc[k] != b,
    decreases doc.len() - from,
{
    if from < doc.len() && doc[from] != b {
        lemma_find_byte(doc, from + 1, b);
    }
}

/// Executable counterpart of [`find_byte`].
pub fn find_byte_at(doc: &Vec<u8>, from: usize, b: u8) -> (r: usize)
    requires
        from <= doc@.len(),
    ensures
        r == find_byte(doc@, from as int, b),
{
    let mut i: usize = from;
    while i < doc.len()
        invariant
            from <= i <= doc@.len(),
            find_byte(doc@, from as int, b) == find_byte(doc@, i as int, b),
        decreases doc@.len() - i,
    {
        if doc[i] == b {
            assert(find_byte(doc@, i as int, b) == i);
            return i;
        }
        assert(find_byte(doc@, i as int, b) == find_byte(doc@, i + 1, b));
        i = i + 1;
    }
    assert(find_byte(doc@, i as int, b) == i);
    i
}

/// The first index at or after `from` holding a non-whitespace byte, or the
/// length of `doc` if there is none.
pub open spec fn skip_ws(doc: Seq<u8>, from: int) -> int
    decreases doc.len() - from,
{
    if from < 0 || from >= doc.len() {
        doc.len() as int
    } else if is_ws(doc[from]) {
        skip_ws(doc, from + 1)
    } else {
        from
    }
}

pub proof fn lemma_skip_ws(doc: Seq<u8>, from: int)
    requires
        0 <= from <= doc.len(),
    ensures
        from <= skip_ws(doc, from) <= doc.len(),
        skip_ws(doc, from) < doc.len() ==> !is_ws(doc[skip_ws(doc, from)]),
    decreases doc.len() - from,
{
    if from < doc.len() && is_ws(doc[from]) {
        lemma_skip_ws(doc, from + 1);
    }
}

/// Executable counterpart of [`skip_ws`].
pub fn skip_ws_at(doc: &Vec<u8>, from: usize) -> (r: usize)
    requires
        from <= doc@.len(),
    ensures
        r == skip_ws(doc@, from as int),
{
    let mut i: usize = from;
    while i < doc.len()
        invariant
            from <= i <= doc@.len(),
            skip_ws(doc@, from as int) == skip_ws(doc@, i as int),
        decreases doc@.len() - i,
    {
        if !ws_byte(doc[i]) {
            assert(skip_ws(doc@, i as int) == i);
            return i;
        }
        assert(skip_ws(doc@, i as int) == skip_ws(doc@, i + 1));
        i = i + 1;
    }
    assert(skip_ws(doc@, i as int) == i);
    i
}

/// Where a tag name ends: the first index in `[from, limit)` holding
/// whitespace or `/`, or `limit` if there is none.
pub open spec fn tag_name_end(doc: Seq<u8>, from: int, limit: int) -> int
    decreases limit - from,
{
    if from < 0 || from >= limit {
        limit
    } else if is_ws(doc[from]) || doc[from] == SLASH {
        from
    } else {
        tag_name_end(doc, from + 1, limit)
    }
}

pub proof fn lemma_tag_name_end(doc: Seq<u8>, from: int, limit: int)
    requires
        0 <= from <= limit,
    ensures
        from <= tag_name_end(doc, from, limit) <= limit,
    decreases limit - from,
{
    if from < limit && !(is_ws(doc[from]) || doc[from] == SLASH) {
        lemma_tag_name_end(doc, from + 1, limit);
    }
}

/// Executable counterpart of [`tag_name_end`].
pub fn tag_name_end_at(doc: &Vec<u8>, from: usize, limit: usize) -> (r: usize)
    requires
        from <= limit <= doc@.len(),
    ensures
        r == tag_name_end(doc@, from as int, limit as int),
{
    let mut i: usize = from;
    while i < limit
        invariant
            from <= i <= limit <= doc@.len(),
            tag_name_end(doc@, from as int, limit as int) == tag_name_end(
                doc@,
                i as int,
                limit as int,
            ),
        decreases limit - i,
    {
        if ws_byte(doc[i]) || doc[i] == SLASH {
            assert(tag_name_end(doc@, i as int, limit as int) == i);
            return i;
        }
        assert(tag_name_end(doc@, i as int, limit as int) == tag_name_end(
            doc@,
            i + 1,
            limit as int,
        ));
        i = i + 1;
    }
    assert(tag_name_end(doc@, i as int, limit as int) == i);
    i
}

/// Where the body of a tag ends: the first `>` at or after `from` that does
/// not stand inside a quoted attribute value, or the length of `doc` if
/// there is none. `quote` is the quote character currently open, if any.
pub open spec fn tag_end(doc: Seq<u8>, from: int, quote: Option<u8>) -> int
    decreases doc.len() - from,
{
    if from < 0 || from >= doc.len() {
        doc.len() as int
    } else {
        match quote {
            Option::Some(q) => {
                if doc[from] == q {
                    tag_end(doc, from + 1, Option::None)
                } else {
                    tag_end(doc, from + 1, quote)
                }
            },
            Option::None => {
                if doc[from] == GT {
                    from
                } else if doc[from] == DQUOTE || doc[from] == SQUOTE {
                    tag_end(doc, from + 1, Option::Some(doc[from]))
                } else {
                    tag_end(doc, from + 1, Option::None)
                }
            },
        }
    }
}

pub proof fn lemma_tag_end(doc: Seq<u8>, from: int, quote: Option<u8>)
    requires
        0 <= from <= doc.len(),
    ensures
        from <= tag_end(doc, from, quote) <= doc.len(),
        tag_end(doc, from, quote) < doc.len() ==> doc[tag_end(doc, from, quote)] == GT,
    decreases doc.len() - from,
{
    if from < doc.len() {
        match quote {
            Option::Some(q) => {
                if doc[from] == q {
                    lemma_tag_end(doc, from + 1, Option::None);
                } else {
                    lemma_tag_end(doc, from + 1, quote);
                }
            },
            Option::None => {
                if doc[from] == GT {
                } else if doc[from] == DQUOTE || doc[from] == SQUOTE {
                    lemma_tag_end(doc, from + 1, Option::Some(doc[from]));
                } else {
                    lemma_tag_end(doc, from + 1, Option::None);
                }
            },
        }
    }
}

/// Executable counterpart of [`tag_end`], started outside any quote.
pub fn tag_end_at(doc: &Vec<u8>, from: usize) -> (r: usize)
    requires
        from <= doc@.len(),
    ensures
        r == tag_end(doc@, from as int, Option::None),
{
    let mut i: usize = from;
    let mut quote: Option<u8> = Option::None;
    while i < doc.len()
        invariant
            from <= i <= doc@.len(),
            tag_end(doc@, from as int, Option::None) == tag_end(doc@, i as int, quote),
        decreases doc@.len() - i,
    {
        let c = doc[i];
        match quote {
            Option::Some(q) => {
                if c == q {
                    quote = Option::None;
                }
            },
            Option::None => {
                if c == GT {
                    assert(tag_end(doc@, i as int, Option::None) == i);
                    return i;
                }
                if c == DQUOTE || c == SQUOTE {
                    quote = Option::Some(c);
                }
            },
        }
        i = i + 1;
    }
    i
}

/// The first index at or after `from` where the three bytes `p0 p1 p2`
/// stand in a row, or the length of `doc` if there is none.
pub open spec fn find_three(doc: Seq<u8>, from: int, p0: u8, p1: u8, p2: u8) -> int
    decreases doc.len() - from,
{
    if from < 0 || from + 3 > doc.len() {
        doc.len() as int
    } else if doc[from] == p0 && doc[from + 1] == p1 && doc[from + 2] == p2 {
        from
    } else {
        find_three(doc, from + 1, p0, p1, p2)
    }
}

pub proof fn lemma_find_three(doc: Seq<u8>, from: int, p0: u8, p1: u8, p2: u8)
    requires
        0 <= from <= doc.len(),
    ensures
        from <= find_three(doc, from, p0, p1, p2) <= doc.len(),
        find_three(doc, from, p0, p1, p2) < doc.len() ==> find_three(doc, from, p0, p1, p2) + 3
            <= doc.len(),
    decreases doc.len() - from,
{
    if from + 3 <= doc.len() && !(doc[from] == p0 && doc[from + 1] == p1 && doc[from + 2] == p2) {
        lemma_find_three(doc, from + 1, p0, p1, p2);
    }
}

/// Executable counterpart of [`find_three`].
pub fn find_three_at(doc: &Vec<u8>, from: usize, p0: u8, p1: u8, p2: u8) -> (r: usize)
    requires
        from <= doc@.len(),
    ensures
        r == find_three(doc@, from as int, p0, p1, p2),
{
    let mut i: usize = from;
    while doc.len() - i >= 3
        invariant
            from <= i <= doc@.len(),
            find_three(doc@, from as int, p0, p1, p2) == find_three(doc@, i as int, p0, p1, p2),
        decreases doc@.len() - i,
    {
        if doc[i] == p0 && doc[i + 1] == p1 && doc[i + 2] == p2 {
            assert(find_three(doc@, i as int, p0, p1, p2) == i);
            return i;
        }
        assert(find_three(doc@, i as int, p0, p1, p2) == find_three(doc@, i + 1, p0, p1, p2));
        i = i + 1;
    }
    assert(find_three(doc@, i as int, p0, p1, p2) == doc@.len());
    doc.len()
}

/// Copies `doc[i..j]` into a fresh vector.
pub fn copy_range(doc: &Vec<u8>, i: usize, j: usize) -> (r: Vec<u8>)
    requires
        i <= j <= doc@.len(),
    ensures
        r@ == doc@.subrange(i as int, j as int),
{
    let mut out: Vec<u8> = Vec::new();
    let mut k: usize = i;
    while k < j
        invariant
            i <= k <= j <= doc@.len(),
            out@ == doc@.subrange(i as int, k as int),
        decreases j - k,
    {
        out.push(doc[k]);
        assert(doc@.subrange(i as int, k + 1 as int) =~= doc@.subrange(i as int, k as int).push(
            doc@[k as int],
        ));
        k = k + 1;
    }
    assert(doc@.subrange(i as int, j as int) =~= out@);
    out
}

/// Byte-for-byte equality of two byte vectors.
pub fn bytes_eq(a: &Vec<u8>, b: &Vec<u8>) -> (r: bool)
    ensures
        r == (a@ == b@),
{
    if a.len() != b.len() {
        assert(a@ != b@);
        return false;
    }
    let mut k: usize = 0;
    while k < a.len()
        invariant
            k <= a@.len(),
            a@.len() == b@.len(),
            forall|n: int| 0 <= n < k ==> a@[n] == b@[n],
        decreases a@.len() - k,
    {
        if a[k] != b[k] {
            assert(a@ != b@);
            return false;
        }
        k = k + 1;
    }
    assert(a@ =~= b@);
    true
}

// ---------------------------------------------------------------------------
// Events
// ---------------------------------------------------------------------------

/// The mathematical model of one markup event. Every variant carries `raw`,
/// the exact document slice the event was cut from.
pub enum SpecEvent {
    /// `<name ...>`
    Start { name: Seq<u8>, raw: Seq<u8> },
    /// `</name>`
    End { name: Seq<u8>, raw: Seq<u8> },
    /// `<name .../>`; `attrs` is the byte region between the name and the
    /// closing `/>`.
    SelfClosed { name: Seq<u8>, attrs: Seq<u8>, raw: Seq<u8> },
    /// Anything else: text, a comment, a character-data section, a
    /// declaration or a processing instruction.
    Other { raw: Seq<u8> },
}

/// The exact document slice an event was cut from.
pub open spec fn event_raw(ev: SpecEvent) -> Seq<u8> {
    match ev {
        SpecEvent::Start { raw, .. } => raw,
        SpecEvent::End { raw, .. } => raw,
        SpecEvent::SelfClosed { raw, .. } => raw,
        SpecEvent::Other { raw } => raw,
    }
}

/// One markup event as executable data; its view is a [`SpecEvent`].
pub enum XmlEvent {
    Start { name: Vec<u8>, raw: Vec<u8> },
    End { name: Vec<u8>, raw: Vec<u8> },
    SelfClosed { name: Vec<u8>, attrs: Vec<u8>, raw: Vec<u8> },
    Other { raw: Vec<u8> },
}

impl View for XmlEvent {
    type V = SpecEvent;

    open spec fn view(&self) -> SpecEvent {
        match self {
            XmlEvent::Start { name, raw } => SpecEvent::Start { name: name@, raw: raw@ },
            XmlEvent::End { name, raw } => SpecEvent::End { name: name@, raw: raw@ },
            XmlEvent::SelfClosed { name, attrs, raw } => SpecEvent::SelfClosed {
                name: name@,
                attrs: attrs@,
                raw: raw@,
            },
            XmlEvent::Other { raw } => SpecEvent::Other { raw: raw@ },
        }
    }
}

/// Whether the seven bytes of a character-data section opener stand at `i`
/// (the `[CDATA[` that follows `<!`).
pub open spec fn is_cdata_open(doc: Seq<u8>, i: int) -> bool {
    &&& doc[i] == LBRACK
    &&& doc[i + 1] == 67  // C
    &&& doc[i + 2] == 68  // D
    &&& doc[i + 3] == 65  // A
    &&& doc[i + 4] == 84  // T
    &&& doc[i + 5] == 65  // A
    &&& doc[i + 6] == LBRACK
}

/// The event that starts at position `pos` of the document, with the
/// position just past it; `None` when the markup is malformed there (a
/// dangling `<`, a tag or comment that never closes, a tag with an empty
/// name).
pub open spec fn spec_next_event(doc: Seq<u8>, pos: int) -> Option<(SpecEvent, int)>
    recommends
        0 <= pos < doc.len(),
{
    if doc[pos] != LT {
        // Text runs to the next `<` or to the end of the document.
        let j = find_byte(doc, pos + 1, LT);
        Option::Some((SpecEvent::Other { raw: doc.subrange(pos, j) }, j))
    } else if pos + 2 > doc.len() {
        Option::None
    } else if doc[pos + 1] == SLASH {
        let gt = find_byte(doc, pos + 2, GT);
        if gt >= doc.len() {
            Option::None
        } else {
            let ne = tag_name_end(doc, pos + 2, gt);
            Option::Some(
                (
                    SpecEvent::End {
                        name: doc.subrange(pos + 2, ne),
                        raw: doc.subrange(pos, gt + 1),
                    },
                    gt + 1,
                ),
            )
        }
    } else if doc[pos + 1] == BANG {
        if pos + 4 <= doc.len() && doc[pos + 2] == DASH && doc[pos + 3] == DASH {
            // A comment runs to the first `-->`.
            let t = find_three(doc, pos + 4, DASH, DASH, GT);
            if t >= doc.len() {
                Option::None
            } else {
                Option::Some((SpecEvent::Other { raw: doc.subrange(pos, t + 3) }, t + 3))
            }
        } else if pos + 9 <= doc.len() && is_cdata_open(doc, pos + 2) {
            // A character-data section runs to the first `]]>`.
            let t = find_three(doc, pos + 9, RBRACK, RBRACK, GT);
            if t >= doc.len() {
                Option::None
            } else {
                Option::Some((SpecEvent::Other { raw: doc.subrange(pos, t + 3) }, t + 3))
            }
        } else {
            // Document type declarations and the like run to the first `>`.
            let gt = find_byte(doc, pos + 2, GT);
            if gt >= doc.len() {
                Option::None
            } else {
                Option::Some((SpecEvent::Other { raw: doc.subrange(pos, gt + 1) }, gt + 1))
            }
        }
    } else if doc[pos + 1] == QMARK {
        // Processing instructions and declarations run to the first `>`.
        let gt = find_byte(doc, pos + 2, GT);
        if gt >= doc.len() {
            Option::None
        } else {
            Option::Some((SpecEvent::Other { raw: doc.subrange(pos, gt + 1) }, gt + 1))
        }
    } else {
        // A start tag or a self-closing tag; quoted attribute values may
        // hold `>` without ending it.
        let gt = tag_end(doc, pos + 1, Option::None);
        if gt >= doc.len() {
            Option::None
        } else {
            let self_closed = doc[gt - 1] == SLASH;
            let inner_end = if self_closed {
                gt - 1
            } else {
                gt
            };
            let ne = tag_name_end(doc, pos + 1, inner_end);
            let name = doc.subrange(pos + 1, ne);
            if name.len() == 0 {
                Option::None
            } else if self_closed {
                Option::Some(
                    (
                        SpecEvent::SelfClosed {
                            name,
                            attrs: doc.subrange(ne, gt - 1),
                            raw: doc.subrange(pos, gt + 1),
                        },
                        gt + 1,
                    ),
                )
            } else {
                Option::Some(
                    (SpecEvent::Start { name, raw: doc.subrange(pos, gt + 1) }, gt + 1),
                )
            }
        }
    }
}

/// Whatever event comes next, it advances and its raw slice is exactly the
/// bytes it consumed.
pub proof fn lemma_next_event(doc: Seq<u8>, pos: int)
    requires
        0 <= pos < doc.len(),
    ensures
        spec_next_event(doc, pos) matches Option::Some(evnp) ==> pos < evnp.1 <= doc.len()
            && event_raw(evnp.0) == doc.subrange(pos, evnp.1),
{
    if doc[pos] != LT {
        lemma_find_byte(doc, pos + 1, LT);
    } else if pos + 2 > doc.len() {
    } else if doc[pos + 1] == SLASH {
        lemma_find_byte(doc, pos + 2, GT);
        let gt = find_byte(doc, pos + 2, GT);
        if gt < doc.len() {
            lemma_tag_name_end(doc, pos + 2, gt);
        }
    } else if doc[pos + 1] == BANG {
        if pos + 4 <= doc.len() && doc[pos + 2] == DASH && doc[pos + 3] == DASH {
            lemma_find_three(doc, pos + 4, DASH, DASH, GT);
        } else if pos + 9 <= doc.len() && is_cdata_open(doc, pos + 2) {
            lemma_find_three(doc, pos + 9, RBRACK, RBRACK, GT);
        } else {
            lemma_find_byte(doc, pos + 2, GT);
        }
    } else if doc[pos + 1] == QMARK {
        lemma_find_byte(doc, pos + 2, GT);
    } else {
        lemma_tag_end(doc, pos + 1, Option::None);
        let gt = tag_end(doc, pos + 1, Option::None);
        if gt < doc.len() {
            let self_closed = doc[gt - 1] == SLASH;
            let inner_end = if self_closed {
                gt - 1
            } else {
                gt
            };
            assert(pos + 1 <= inner_end);
            lemma_tag_name_end(doc, pos + 1, inner_end);
        }
    }
}

/// All events from position `pos` to the end of the document, or `None` if
/// tokenization fails anywhere on the way.
pub open spec fn spec_events_from(doc: Seq<u8>, pos: int) -> Option<Seq<SpecEvent>>
    decreases doc.len() - pos,
{
    if pos < 0 || pos >= doc.len() {
        Option::Some(Seq::empty())
    } else {
        match spec_next_event(doc, pos) {
            Option::None => Option::None,
            Option::Some((ev, np)) => {
                if pos < np <= doc.len() {
                    match spec_events_from(doc, np) {
                        Option::None => Option::None,
                        Option::Some(rest) => Option::Some(seq![ev] + rest),
                    }
                } else {
                    // Unreachable: the next event always advances.
                    Option::None
                }
            },
        }
    }
}

/// Unrolls [`spec_events_from`] by one event.
pub proof fn lemma_events_from_step(doc: Seq<u8>, pos: int)
    requires
        0 <= pos < doc.len(),
    ensures
        spec_next_event(doc, pos) is None ==> spec_events_from(doc, pos) is None,
        spec_next_event(doc, pos) matches Option::Some(evnp) ==> spec_events_from(doc, pos)
            == (match spec_events_from(doc, evnp.1) {
            Option::Some(rest) => Option::Some(seq![evnp.0] + rest),
            Option::None => Option::None::<Seq<SpecEvent>>,
        }),
{
    lemma_next_event(doc, pos);
}

/// The concatenation of the raw slices of a sequence of events.
pub open spec fn concat_raws(events: Seq<SpecEvent>) -> Seq<u8>
    decreases events.len(),
{
    if events.len() == 0 {
        Seq::empty()
    } else {
        event_raw(events[0]) + concat_raws(events.drop_first())
    }
}

/// The events tile the document: their raw slices concatenate back to the
/// scanned bytes exactly.
pub proof fn lemma_events_tile(doc: Seq<u8>, pos: int)
    requires
        0 <= pos <= doc.len(),
    ensures
        spec_events_from(doc, pos) matches Option::Some(evs) ==> concat_raws(evs) == doc.subrange(
            pos,
            doc.len() as int,
        ),
    decreases doc.len() - pos,
{
    if pos >= doc.len() {
        if spec_events_from(doc, pos) is Some {
            let evs = spec_events_from(doc, pos)->Some_0;
            assert(concat_raws(evs) =~= doc.subrange(pos, doc.len() as int));
        }
    } else {
        if spec_events_from(doc, pos) is Some {
            let evs = spec_events_from(doc, pos)->Some_0;
            let (ev, np) = spec_next_event(doc, pos)->Some_0;
            lemma_next_event(doc, pos);
            lemma_events_tile(doc, np);
            let rest = spec_events_from(doc, np)->Some_0;
            assert(evs == seq![ev] + rest);
            assert((seq![ev] + rest)[0] == ev);
            assert((seq![ev] + rest).drop_first() =~= rest);
            assert(concat_raws(evs) == event_raw(ev) + concat_raws(rest));
            assert(concat_raws(evs) =~= doc.subrange(pos, doc.len() as int));
        }
    }
}

/// Reads the event that starts at `pos`; `None` means malformed markup
/// there.
pub fn next_event(doc: &Vec<u8>, pos: usize) -> (r: Option<(XmlEvent, usize)>)
    requires
        pos < doc@.len(),
    ensures
        r matches Option::Some(evnp) ==> spec_next_event(doc@, pos as int) == Option::Some(
            (evnp.0@, evnp.1 as int),
        ) && pos < evnp.1 <= doc@.len(),
        r is None ==> spec_next_event(doc@, pos as int) is None,
{
    let n = doc.len();
    if doc[pos] != LT {
        let j = find_byte_at(doc, pos + 1, LT);
        proof {
            lemma_find_byte(doc@, pos as int + 1, LT);
        }
        let raw = copy_range(doc, pos, j);
        return Option::Some((XmlEvent::Other { raw }, j));
    }
    if n - pos < 2 {
        return Option::None;
    }
    let c1 = doc[pos + 1];
    if c1 == SLASH {
        let gt = find_byte_at(doc, pos + 2, GT);
        proof {
            lemma_find_byte(doc@, pos as int + 2, GT);
        }
        if gt >= n {
            return Option::None;
        }
        let ne = tag_name_end_at(doc, pos + 2, gt);
        proof {
            lemma_tag_name_end(doc@, pos as int + 2, gt as int);
        }
        let name = copy_range(doc, pos + 2, ne);
        let raw = copy_range(doc, pos, gt + 1);
        return Option::Some((XmlEvent::End { name, raw }, gt + 1));
    }
    if c1 == BANG {
        if n - pos >= 4 && doc[pos + 2] == DASH && doc[pos + 3] == DASH {
            let t = find_three_at(doc, pos + 4, DASH, DASH, GT);
            proof {
                lemma_find_three(doc@, pos as int + 4, DASH, DASH, GT);
            }
            if t >= n {
                return Option::None;
            }
            let raw = copy_range(doc, pos, t + 3);
            return Option::Some((XmlEvent::Other { raw }, t + 3));
        }
        if n - pos >= 9 && doc[pos + 2] == LBRACK && doc[pos + 3] == 67 && doc[pos + 4] == 68
            && doc[pos + 5] == 65 && doc[pos + 6] == 84 && doc[pos + 7] == 65 && doc[pos + 8]
            == LBRACK {
            let t = find_three_at(doc, pos + 9, RBRACK, RBRACK, GT);
            proof {
                lemma_find_three(doc@, pos as int + 9, RBRACK, RBRACK, GT);
            }
            if t >= n {
                return Option::None;
            }
            let raw = copy_range(doc, pos, t + 3);
            return Option::Some((XmlEvent::Other { raw }, t + 3));
        }
        let gt = find_byte_at(doc, pos + 2, GT);
        proof {
            lemma_find_byte(doc@, pos as int + 2, GT);
        }
        if gt >= n {
            return Option::None;
        }
        let raw = copy_range(doc, pos, gt + 1);
        return Option::Some((XmlEvent::Other { raw }, gt + 1));
    }
    if c1 == QMARK {
        let gt = find_byte_at(doc, pos + 2, GT);
        proof {
            lemma_find_byte(doc@, pos as int + 2, GT);
        }
        if gt >= n {
            return Option::None;
        }
        let raw = copy_range(doc, pos, gt + 1);
        return Option::Some((XmlEvent::Other { raw }, gt + 1));
    }
    let gt = tag_end_at(doc, pos + 1);
    proof {
        lemma_tag_end(doc@, pos as int + 1, Option::None);
    }
    if gt >= n {
        return Option::None;
    }
    let self_closed = doc[gt - 1] == SLASH;
    let inner_end = if self_closed {
        gt - 1
    } else {
        gt
    };
    assert(pos + 1 <= inner_end);
    let ne = tag_name_end_at(doc, pos + 1, inner_end);
    proof {
        lemma_tag_name_end(doc@, pos as int + 1, inner_end as int);
    }
    if ne == pos + 1 {
        assert(doc@.subrange(pos as int + 1, ne as int).len() == 0);
        return Option::None;
    }
    assert(doc@.subrange(pos as int + 1, ne as int).len() > 0);
    let name = copy_range(doc, pos + 1, ne);
    let raw = copy_range(doc, pos, gt + 1);
    if self_closed {
        let attrs = copy_range(doc, ne, gt - 1);
        return Option::Some((XmlEvent::SelfClosed { name, attrs, raw }, gt + 1));
    }
    Option::Some((XmlEvent::Start { name, raw }, gt + 1))
}

} // verus!
