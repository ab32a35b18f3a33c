//! The attribute extractor.
//!
//! A tag's attribute region (the bytes between its name and its closing
//! bracket) is first cut into an ordered list of `name="value"` pairs, then
//! turned into a mapping whose keys are unique: the extractor aborts with a
//! duplicate-attribute error the moment the same name appears a second
//! time, and the first occurrence is never overwritten.

use vstd::prelude::*;

use crate::errors::ExecutionError;
use crate::errors::SpecError;
use crate::scan::DQUOTE;
use crate::scan::EQUALS;
use crate::scan::SQUOTE;
use crate::scan::bytes_eq;
use crate::scan::copy_range;
use crate::scan::find_byte;
use crate::scan::find_byte_at;
use crate::scan::is_ws;
use crate::scan::lemma_find_byte;
use crate::scan::lemma_skip_ws;
use crate::scan::skip_ws;
use crate::scan::skip_ws_at;
use crate::scan::ws_byte;

verus! {

/// The view of an executable pair list: each name and value as a sequence.
pub open spec fn pairs_view(v: Seq<(Vec<u8>, Vec<u8>)>) -> Seq<(Seq<u8>, Seq<u8>)> {
    v.map_values(|p: (Vec<u8>, Vec<u8>)| (p.0@, p.1@))
}

// ---------------------------------------------------------------------------
// Cutting an attribute region into pairs
// ---------------------------------------------------------------------------

/// Where an attribute name ends: the first index at or after `from` holding
/// whitespace or `=`, or the length of `s` if there is none.
pub open spec fn attr_name_end(s: Seq<u8>, from: int) -> int
    decreases s.len() - from,
{
    if from < 0 || from >= s.len() {
        s.len() as int
    } else if is_ws(s[from]) || s[from] == EQUALS {
        from
    } else {
        attr_name_end(s, from + 1)
    }
}

pub proof fn lemma_attr_name_end(s: Seq<u8>, from: int)
    requires
        0 <= from <= s.len(),
    ensures
        from <= attr_name_end(s, from) <= s.len(),
    decreases s.len() - from,
{
    if from < s.len() && !(is_ws(s[from]) || s[from] == EQUALS) {
        lemma_attr_name_end(s, from + 1);
    }
}

/// Executable counterpart of [`attr_name_end`].
pub fn attr_name_end_at(s: &Vec<u8>, from: usize) -> (r: usize)
    requires
        from <= s@.len(),
    ensures
        r == attr_name_end(s@, from as int),
{
    let mut i: usize = from;
    while i < s.len()
        invariant
            from <= i <= s@.len(),
            attr_name_end(s@, from as int) == attr_name_end(s@, i as int),
        decreases s@.len() - i,
    {
        if ws_byte(s[i]) || s[i] == EQUALS {
            assert(attr_name_end(s@, i as int) == i);
            return i;
        }
        assert(attr_name_end(s@, i as int) == attr_name_end(s@, i + 1));
        i = i + 1;
    }
    assert(attr_name_end(s@, i as int) == i);
    i
}

/// The ordered `name="value"` pairs of an attribute region, duplicates
/// kept, starting at `pos`; `None` when the region is malformed (a missing
/// `=`, an unquoted or unterminated value, an empty name).
pub open spec fn spec_attr_tokens(s: Seq<u8>, pos: int) -> Option<Seq<(Seq<u8>, Seq<u8>)>>
    decreases s.len() - pos,
{
    let i = skip_ws(s, pos);
    if i >= s.len() {
        Option::Some(Seq::empty())
    } else {
        let ne = attr_name_end(s, i);
        if ne == i {
            Option::None
        } else {
            let name = s.subrange(i, ne);
            let j = skip_ws(s, ne);
            if j >= s.len() || s[j] != EQUALS {
                Option::None
            } else {
                let k = skip_ws(s, j + 1);
                if k >= s.len() || !(s[k] == DQUOTE || s[k] == SQUOTE) {
                    Option::None
                } else {
                    let ve = find_byte(s, k + 1, s[k]);
                    if ve >= s.len() {
                        Option::None
                    } else {
                        let value = s.subrange(k + 1, ve);
                        if pos < ve + 1 <= s.len() {
                            match spec_attr_tokens(s, ve + 1) {
                                Option::None => Option::None,
                                Option::Some(rest) => Option::Some(seq![(name, value)] + rest),
                            }
                        } else {
                            // Unreachable: the scanners only move forward.
                            Option::None
                        }
                    }
                }
            }
        }
    }
}

/// Cuts an attribute region into its ordered pair list; a malformed region
/// is a markup syntax error.
pub fn attr_tokens(s: &Vec<u8>) -> (r: Result<Vec<(Vec<u8>, Vec<u8>)>, ExecutionError>)
    ensures
        r matches Ok(ps) ==> spec_attr_tokens(s@, 0) == Option::Some(pairs_view(ps@)),
        r matches Err(e) ==> spec_attr_tokens(s@, 0) is None && e@ == SpecError::Xml,
{
    let mut out: Vec<(Vec<u8>, Vec<u8>)> = Vec::new();
    let mut pos: usize = 0;
    loop
        invariant
            pos <= s@.len(),
            spec_attr_tokens(s@, pos as int) matches Option::Some(rest) ==> spec_attr_tokens(
                s@,
                0,
            ) == Option::Some(pairs_view(out@) + rest),
            spec_attr_tokens(s@, pos as int) is None ==> spec_attr_tokens(s@, 0) is None,
        decreases s@.len() - pos,
    {
        let ghost entry = spec_attr_tokens(s@, pos as int);
        proof {
            lemma_skip_ws(s@, pos as int);
        }
        let i = skip_ws_at(s, pos);
        if i >= s.len() {
            assert(entry == Option::Some(Seq::<(Seq<u8>, Seq<u8>)>::empty()));
            assert(pairs_view(out@) + Seq::<(Seq<u8>, Seq<u8>)>::empty() =~= pairs_view(out@));
            return Ok(out);
        }
        let ne = attr_name_end_at(s, i);
        proof {
            lemma_attr_name_end(s@, i as int);
        }
        if ne == i {
            return Err(ExecutionError::XMLError);
        }
        let name = copy_range(s, i, ne);
        proof {
            lemma_skip_ws(s@, ne as int);
        }
        let j = skip_ws_at(s, ne);
        if j >= s.len() || s[j] != EQUALS {
            return Err(ExecutionError::XMLError);
        }
        proof {
            lemma_skip_ws(s@, j as int + 1);
        }
        let k = skip_ws_at(s, j + 1);
        if k >= s.len() || !(s[k] == DQUOTE || s[k] == SQUOTE) {
            return Err(ExecutionError::XMLError);
        }
        let ve = find_byte_at(s, k + 1, s[k]);
        proof {
            lemma_find_byte(s@, k as int + 1, s@[k as int]);
        }
        if ve >= s.len() {
            return Err(ExecutionError::XMLError);
        }
        let value = copy_range(s, k + 1, ve);
        proof {
            let rest = spec_attr_tokens(s@, ve + 1);
            if rest is Some {
                assert(entry == Option::Some(
                    seq![(name@, value@)] + rest->Some_0,
                ));
                assert(pairs_view(out@.push((name, value)))
                    =~= pairs_view(out@) + seq![(name@, value@)]) by {
                    assert(pairs_view(out@.push((name, value))).len() == out@.len() + 1);
                }
                assert(pairs_view(out@) + (seq![(name@, value@)] + rest->Some_0) =~= (pairs_view(
                    out@,
                ) + seq![(name@, value@)]) + rest->Some_0);
            } else {
                assert(entry is None);
            }
        }
        out.push((name, value));
        pos = ve + 1;
    }
}

// ---------------------------------------------------------------------------
// Rejecting duplicate names
// ---------------------------------------------------------------------------

/// Whether some pair in the list carries this name.
pub open spec fn contains_key(pairs: Seq<(Seq<u8>, Seq<u8>)>, key: Seq<u8>) -> bool {
    exists|n: int| 0 <= n < pairs.len() && pairs[n].0 == key
}

/// Whether all names in the list differ.
pub open spec fn distinct_keys(pairs: Seq<(Seq<u8>, Seq<u8>)>) -> bool {
    forall|m: int, n: int| 0 <= m < n < pairs.len() ==> pairs[m].0 != pairs[n].0
}

/// Walks the pair list in order, keeping pairs whose name is new and
/// stopping with the offending name the moment one repeats; `acc` holds
/// what has been kept so far.
pub open spec fn spec_dedup(
    pairs: Seq<(Seq<u8>, Seq<u8>)>,
    acc: Seq<(Seq<u8>, Seq<u8>)>,
) -> Result<Seq<(Seq<u8>, Seq<u8>)>, Seq<u8>>
    decreases pairs.len(),
{
    if pairs.len() == 0 {
        Ok(acc)
    } else if contains_key(acc, pairs[0].0) {
        Err(pairs[0].0)
    } else {
        spec_dedup(pairs.drop_first(), acc.push(pairs[0]))
    }
}

/// The attribute extractor: turns a pair list into a mapping with unique
/// names, aborting on the first repeated name.
pub fn parse_attributes(pairs: Vec<(Vec<u8>, Vec<u8>)>) -> (r: Result<
    Vec<(Vec<u8>, Vec<u8>)>,
    ExecutionError,
>)
    ensures
        r matches Ok(ps) ==> spec_dedup(pairs_view(pairs@), Seq::empty()) == Ok::<_, Seq<u8>>(
            pairs_view(ps@),
        ),
        r matches Err(e) ==> spec_dedup(pairs_view(pairs@), Seq::empty()) matches Err(k) && e@
            == SpecError::DuplicateAttr(k),
{
    let ghost full = pairs_view(pairs@);
    let mut out: Vec<(Vec<u8>, Vec<u8>)> = Vec::new();
    let mut idx: usize = 0;
    assert(full.skip(0) =~= full);
    assert(pairs_view(out@) =~= Seq::empty());
    while idx < pairs.len()
        invariant
            idx <= pairs@.len(),
            full == pairs_view(pairs@),
            spec_dedup(full, Seq::empty()) == spec_dedup(
                full.skip(idx as int),
                pairs_view(out@),
            ),
        decreases pairs@.len() - idx,
    {
        let ghost remaining = full.skip(idx as int);
        assert(remaining[0] == (pairs@[idx as int].0@, pairs@[idx as int].1@));
        assert(remaining.drop_first() =~= full.skip(idx as int + 1));
        let name = &pairs[idx].0;
        if has_key(&out, name) {
            let owned = copy_whole(name);
            return Err(ExecutionError::DuplicateTagAttribute(owned));
        }
        assert(!contains_key(pairs_view(out@), name@));
        let entry = (copy_whole(&pairs[idx].0), copy_whole(&pairs[idx].1));
        assert(pairs_view(out@.push(entry))
            =~= pairs_view(out@).push(remaining[0])) by {
            assert(pairs_view(out@.push(entry)).len() == out@.len() + 1);
        }
        out.push(entry);
        idx = idx + 1;
    }
    assert(full.skip(idx as int) =~= Seq::<(Seq<u8>, Seq<u8>)>::empty());
    Ok(out)
}

/// Whether some pair of the list already carries this name.
pub fn has_key(out: &Vec<(Vec<u8>, Vec<u8>)>, name: &Vec<u8>) -> (r: bool)
    ensures
        r == contains_key(pairs_view(out@), name@),
{
    let mut n: usize = 0;
    while n < out.len()
        invariant
            n <= out@.len(),
            forall|m: int| 0 <= m < n ==> pairs_view(out@)[m].0 != name@,
        decreases out@.len() - n,
    {
        if bytes_eq(&out[n].0, name) {
            assert(pairs_view(out@)[n as int].0 == name@);
            return true;
        }
        n = n + 1;
    }
    false
}

/// Copies a byte vector.
pub fn copy_whole(v: &Vec<u8>) -> (r: Vec<u8>)
    ensures
        r@ == v@,
{
    let mut out: Vec<u8> = Vec::new();
    let mut k: usize = 0;
    while k < v.len()
        invariant
            k <= v@.len(),
            out@ == v@.subrange(0, k as int),
        decreases v@.len() - k,
    {
        out.push(v[k]);
        assert(v@.subrange(0, k + 1 as int) =~= v@.subrange(0, k as int).push(v@[k as int]));
        k = k + 1;
    }
    assert(v@.subrange(0, v@.len() as int) =~= v@);
    out
}

// ---------------------------------------------------------------------------
// Laws of the extractor
// ---------------------------------------------------------------------------

/// A pair list with a repeated name never survives the extractor: the
/// result is a duplicate-attribute error, whatever the count or position
/// of the pairs, and the name reported is one that indeed repeats.
pub proof fn lemma_duplicate_attribute_rejected(pairs: Seq<(Seq<u8>, Seq<u8>)>)
    requires
        !distinct_keys(pairs),
    ensures
        spec_dedup(pairs, Seq::empty()) matches Err(k) && contains_dup(pairs, k),
{
    lemma_dedup_err(pairs, Seq::empty());
}

/// Whether `key` names at least two pairs of the list.
pub open spec fn contains_dup(pairs: Seq<(Seq<u8>, Seq<u8>)>, key: Seq<u8>) -> bool {
    exists|m: int, n: int| 0 <= m < n < pairs.len() && pairs[m].0 == key && pairs[n].0 == key
}

proof fn lemma_dedup_err(pairs: Seq<(Seq<u8>, Seq<u8>)>, acc: Seq<(Seq<u8>, Seq<u8>)>)
    requires
        !distinct_keys(acc + pairs),
        distinct_keys(acc),
    ensures
        spec_dedup(pairs, acc) matches Err(k) && contains_dup(acc + pairs, k),
    decreases pairs.len(),
{
    assert(pairs.len() > 0) by {
        if pairs.len() == 0 {
            assert(acc + pairs =~= acc);
        }
    }
    if contains_key(acc, pairs[0].0) {
        let m = choose|m: int| 0 <= m < acc.len() && acc[m].0 == pairs[0].0;
        assert((acc + pairs)[m] == acc[m]);
        assert((acc + pairs)[acc.len() as int] == pairs[0]);
    } else {
        let acc2 = acc.push(pairs[0]);
        let rest = pairs.drop_first();
        assert(acc2 + rest =~= acc + pairs);
        assert(distinct_keys(acc2)) by {
            assert(forall|m: int| 0 <= m < acc.len() ==> acc2[m] == acc[m]);
        }
        lemma_dedup_err(rest, acc2);
    }
}

/// A pair list with pairwise distinct names passes the extractor
/// unchanged: the mapping holds exactly the given pairs, in order.
pub proof fn lemma_distinct_attributes_accepted(pairs: Seq<(Seq<u8>, Seq<u8>)>)
    requires
        distinct_keys(pairs),
    ensures
        spec_dedup(pairs, Seq::empty()) == Ok::<_, Seq<u8>>(pairs),
{
    lemma_dedup_ok(pairs, Seq::empty());
    assert(Seq::empty() + pairs =~= pairs);
}

proof fn lemma_dedup_ok(pairs: Seq<(Seq<u8>, Seq<u8>)>, acc: Seq<(Seq<u8>, Seq<u8>)>)
    requires
        distinct_keys(acc + pairs),
    ensures
        spec_dedup(pairs, acc) == Ok::<_, Seq<u8>>(acc + pairs),
    decreases pairs.len(),
{
    if pairs.len() == 0 {
        assert(acc + pairs =~= acc);
    } else {
        assert(!contains_key(acc, pairs[0].0)) by {
            if contains_key(acc, pairs[0].0) {
                let m = choose|m: int| 0 <= m < acc.len() && acc[m].0 == pairs[0].0;
                assert((acc + pairs)[m] == acc[m]);
                assert((acc + pairs)[acc.len() as int] == pairs[0]);
            }
        }
        let acc2 = acc.push(pairs[0]);
        let rest = pairs.drop_first();
        assert(acc2 + rest =~= acc + pairs);
        lemma_dedup_ok(rest, acc2);
    }
}

/// Whatever the extractor accepts has pairwise distinct names.
pub proof fn lemma_extracted_keys_distinct(pairs: Seq<(Seq<u8>, Seq<u8>)>)
    ensures
        spec_dedup(pairs, Seq::empty()) matches Ok(ps) ==> distinct_keys(ps),
{
    lemma_dedup_distinct(pairs, Seq::empty());
}

proof fn lemma_dedup_distinct(pairs: Seq<(Seq<u8>, Seq<u8>)>, acc: Seq<(Seq<u8>, Seq<u8>)>)
    requires
        distinct_keys(acc),
    ensures
        spec_dedup(pairs, acc) matches Ok(ps) ==> distinct_keys(ps),
    decreases pairs.len(),
{
    if pairs.len() > 0 && !contains_key(acc, pairs[0].0) {
        let acc2 = acc.push(pairs[0]);
        assert(distinct_keys(acc2)) by {
            assert(forall|m: int| 0 <= m < acc.len() ==> acc2[m] == acc[m]);
        }
        lemma_dedup_distinct(pairs.drop_first(), acc2);
    }
}

} // verus!
