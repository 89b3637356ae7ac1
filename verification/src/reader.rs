//! The hardened PMML reader: a file-size cap checked before parsing, a
//! nesting-depth cap enforced while events are handed out, and declarations,
//! comments and processing instructions skipped.

use vstd::prelude::*;
use quick_xml::Reader;
use crate::error::PmmlError;
use crate::strings::{concat, push_decimal, decimal, string_from};
use crate::xml::{
    XmlEvent, MAX_DEPTH, MAX_FILE_BYTES, read_all_events, eof_free, document_events, reader_from_bytes,
    reader_trim_text, reader_expand_empty_elements,
};

verus! {

/// The message of the error for a document of `len` bytes over the size cap.
pub open spec fn too_large_message(len: nat) -> Seq<char> {
    "PMML file too large: "@ + decimal(len) + " > "@ + decimal(MAX_FILE_BYTES as nat)
}

/// The message of the error for a document nested deeper than the cap.
pub open spec fn depth_message() -> Seq<char> {
    "XML depth exceeds limit "@ + decimal(MAX_DEPTH as nat)
}

/// Whether `e` is the validation error for an oversized document of `len` bytes.
pub open spec fn is_too_large(e: PmmlError, len: nat) -> bool {
    e matches PmmlError::ValidationError(m) && m@ == too_large_message(len)
}

/// The validation error for an oversized document.
pub(crate) fn too_large_error(len: usize) -> (e: PmmlError)
    ensures
        is_too_large(e, len as nat),
{
    let mut m = string_from("PMML file too large: ");
    push_decimal(&mut m, len);
    let mut m = concat(m.as_str(), " > ");
    push_decimal(&mut m, MAX_FILE_BYTES);
    PmmlError::ValidationError(m)
}

/// Events the reader skips: declarations, comments and processing instructions.
pub open spec fn is_skipped(e: XmlEvent) -> bool {
    e is Decl || e is Comment || e is PI
}

/// Number of skipped events at the front of `rem`.
pub open spec fn skip_count(rem: Seq<XmlEvent>) -> nat
    decreases rem.len(),
{
    if rem.len() > 0 && is_skipped(rem[0]) {
        1 + skip_count(rem.drop_first())
    } else {
        0
    }
}

/// The depth after handing out event `e` at depth `d`.
pub open spec fn depth_after(e: XmlEvent, d: nat) -> nat {
    match e {
        XmlEvent::Start(_) => d + 1,
        XmlEvent::End(_) => if d > 0 { (d - 1) as nat } else { 0 },
        _ => d,
    }
}

/// What one call of [`PmmlReader::read_event`] answers when the events still
/// to come are `rem` and the depth is `d`: the event (or error) handed out,
/// the events left after the call, and the new depth, stated through
/// `result_ok` for the `Ok` case.
pub open spec fn read_step(rem: Seq<XmlEvent>, d: nat) -> (Seq<XmlEvent>, nat) {
    let k = skip_count(rem);
    if k >= rem.len() {
        (seq![], d)
    } else {
        (rem.skip(k + 1 as int), depth_after(rem[k as int], d))
    }
}

/// Whether `r` is the answer of [`PmmlReader::read_event`] for remaining
/// events `rem` at depth `d`.
pub open spec fn read_answer(rem: Seq<XmlEvent>, d: nat, r: Result<XmlEvent, PmmlError>) -> bool {
    let k = skip_count(rem);
    if k >= rem.len() {
        r matches Ok(XmlEvent::Eof)
    } else {
        let e = rem[k as int];
        match e {
            XmlEvent::Error(m) => r matches Err(PmmlError::ParseError { context, message })
                && context@ == "xml"@ && message@ == m@,
            XmlEvent::Start(_) => if d + 1 > MAX_DEPTH {
                r matches Err(PmmlError::ValidationError(m)) && m@ == depth_message()
            } else {
                r == Ok::<XmlEvent, PmmlError>(e)
            },
            _ => r == Ok::<XmlEvent, PmmlError>(e),
        }
    }
}

/// Hardened PMML reader: hands out the events of a document one at a time,
/// tracking element depth.
pub struct PmmlReader {
    /// Events still to come, last one first.
    pending: Vec<XmlEvent>,
    depth: usize,
}

impl PmmlReader {
    #[verifier::type_invariant]
    spec fn inv(self) -> bool {
        &&& self.depth <= usize::MAX - self.pending@.len()
        &&& eof_free(self.pending@)
    }

    /// The events still to come, in document order.
    pub closed spec fn remaining(self) -> Seq<XmlEvent> {
        self.pending@.reverse()
    }

    /// The current element depth.
    pub closed spec fn depth(self) -> nat {
        self.depth as nat
    }

    /// Create a reader over `bytes`: a validation error when the document is
    /// larger than the size cap, otherwise a reader at depth 0 whose events
    /// are those of the document, in order.
    pub fn from_bytes(bytes: &[u8]) -> (r: Result<PmmlReader, PmmlError>)
        ensures
            match r {
                Ok(rd) => bytes@.len() <= MAX_FILE_BYTES && rd.depth() == 0 && rd.remaining()
                    == document_events(bytes@) && eof_free(rd.remaining()),
                Err(e) => bytes@.len() > MAX_FILE_BYTES && is_too_large(e, bytes@.len()),
            },
    {
        if bytes.len() > MAX_FILE_BYTES {
            return Err(too_large_error(bytes.len()));
        }
        let mut events = read_all_events(bytes);
        let ghost all = events@;
        let mut pending: Vec<XmlEvent> = Vec::new();
        while events.len() > 0
            invariant
                all.take(events@.len() as int) == events@,
                pending@ == all.skip(events@.len() as int).reverse(),
                events@.len() <= all.len(),
                eof_free(all),
            decreases events.len(),
        {
            let ghost before = events@;
            let ev = events.pop().unwrap();
            pending.push(ev);
            assert(all.take(events@.len() as int) =~= events@);
            assert(pending@ =~= all.skip(events@.len() as int).reverse());
        }
        assert(all.skip(0) =~= all);
        assert(pending@ =~= all.reverse());
        assert(pending@.reverse() =~= all);
        assert(eof_free(pending@)) by {
            assert forall|k: int| 0 <= k < pending@.len() implies !(#[trigger] pending@[k] is Eof) by {
                assert(pending@[k] == all[all.len() - 1 - k]);
            }
        }
        assert(pending@.len() == pending.len());
        Ok(PmmlReader { pending, depth: 0 })
    }

    /// Read the next event, skipping declarations, comments and processing
    /// instructions. A start tag increases the depth and is refused with a
    /// validation error when the depth then exceeds the cap; an end tag
    /// decreases it (never below zero); a reader error becomes a parse error
    /// in context `xml`; at the end of the document `Eof` comes back, again
    /// and again.
    pub fn read_event(&mut self) -> (r: Result<XmlEvent, PmmlError>)
        ensures
            read_answer(old(self).remaining(), old(self).depth(), r),
            (final(self).remaining(), final(self).depth()) == read_step(
                old(self).remaining(),
                old(self).depth(),
            ),
    {
        proof {
            use_type_invariant(&*self);
        }
        let ghost rem0 = self.remaining();
        let ghost mut skipped: nat = 0;
        let mut p: Vec<XmlEvent> = Vec::new();
        std::mem::swap(&mut p, &mut self.pending);
        loop
            invariant
                eof_free(p@),
                self.depth <= usize::MAX - p@.len(),
                self.depth == old(self).depth,
                self.pending@.len() == 0,
                rem0 == old(self).remaining(),
                skipped <= rem0.len(),
                p@.reverse() == rem0.skip(skipped as int),
                skip_count(rem0) == skipped + skip_count(p@.reverse()),
            decreases p@.len(),
        {
            let ghost rem = p@.reverse();
            if p.len() == 0 {
                self.pending = p;
                assert(self.remaining() =~= Seq::<XmlEvent>::empty());
                return Ok(XmlEvent::Eof);
            }
            let ghost p_before = p@;
            let ev = p.pop().unwrap();
            proof {
                assert(rem[0] == ev);
                assert(p@.reverse() =~= rem.drop_first());
                assert(eof_free(p@)) by {
                    assert forall|k: int| 0 <= k < p@.len() implies !(#[trigger] p@[k] is Eof) by {
                        assert(p@[k] == p_before[k]);
                    }
                }
            }
            match ev {
                XmlEvent::Decl(_) | XmlEvent::Comment(_) | XmlEvent::PI(_) => {
                    proof {
                        assert(rem0.skip(skipped + 1 as int) =~= rem.drop_first());
                        skipped = skipped + 1;
                    }
                },
                XmlEvent::Error(m) => {
                    self.pending = p;
                    proof {
                        assert(rem0.skip(skipped + 1 as int) =~= self.remaining());
                    }
                    return Err(PmmlError::ParseError { context: string_from("xml"), message: m });
                },
                XmlEvent::Start(t) => {
                    self.pending = p;
                    self.depth = self.depth + 1;
                    proof {
                        assert(rem0.skip(skipped + 1 as int) =~= self.remaining());
                    }
                    if self.depth > MAX_DEPTH {
                        let mut m = string_from("XML depth exceeds limit ");
                        push_decimal(&mut m, MAX_DEPTH);
                        return Err(PmmlError::ValidationError(m));
                    }
                    return Ok(XmlEvent::Start(t));
                },
                XmlEvent::End(n) => {
                    self.pending = p;
                    if self.depth > 0 {
                        self.depth = self.depth - 1;
                    }
                    proof {
                        assert(rem0.skip(skipped + 1 as int) =~= self.remaining());
                    }
                    return Ok(XmlEvent::End(n));
                },
                other => {
                    self.pending = p;
                    proof {
                        assert(rem0.skip(skipped + 1 as int) =~= self.remaining());
                    }
                    return Ok(other);
                },
            }
        }
    }
}

/// Create a `quick_xml` reader over `bytes` configured as the hardened PMML
/// reader is (text trimmed, empty elements expanded), without depth tracking:
/// a validation error when the document is larger than the size cap.
pub fn new_reader<'a>(bytes: &'a [u8]) -> (r: Result<Reader<&'a [u8]>, PmmlError>)
    ensures
        r is Err <==> bytes@.len() > MAX_FILE_BYTES,
        r matches Err(e) ==> is_too_large(e, bytes@.len()),
{
    if bytes.len() > MAX_FILE_BYTES {
        return Err(too_large_error(bytes.len()));
    }
    let mut r = reader_from_bytes(bytes);
    reader_trim_text(&mut r, true);
    reader_expand_empty_elements(&mut r, true);
    Ok(r)
}

// ---------- laws of the reader ----------

/// The skipped events at the front of `rem` are exactly its first
/// `skip_count(rem)` events, and the event after them, if any, is not skipped.
proof fn lemma_skip_count(rem: Seq<XmlEvent>)
    ensures
        skip_count(rem) <= rem.len(),
        forall|j: int| 0 <= j < skip_count(rem) ==> is_skipped(#[trigger] rem[j]),
        skip_count(rem) < rem.len() ==> !is_skipped(rem[skip_count(rem) as int]),
    decreases rem.len(),
{
    if rem.len() > 0 && is_skipped(rem[0]) {
        lemma_skip_count(rem.drop_first());
        assert forall|j: int| 0 <= j < skip_count(rem) implies is_skipped(#[trigger] rem[j]) by {
            if j > 0 {
                assert(rem[j] == rem.drop_first()[j - 1]);
            }
        }
        if skip_count(rem) < rem.len() {
            assert(rem[skip_count(rem) as int] == rem.drop_first()[skip_count(rem.drop_first()) as int]);
        }
    }
}

/// Depth cap: whenever the reader hands out a start tag, the depth it then
/// holds is within the cap.
pub proof fn start_tag_within_depth_cap(rem: Seq<XmlEvent>, d: nat, r: Result<XmlEvent, PmmlError>)
    requires
        read_answer(rem, d, r),
        r matches Ok(XmlEvent::Start(_)),
    ensures
        read_step(rem, d).1 <= MAX_DEPTH,
{
    lemma_skip_count(rem);
}

/// A start tag that would go past the cap is refused with the depth error.
pub proof fn start_tag_past_cap_refused(rem: Seq<XmlEvent>, d: nat, r: Result<XmlEvent, PmmlError>)
    requires
        read_answer(rem, d, r),
        skip_count(rem) < rem.len(),
        rem[skip_count(rem) as int] is Start,
        d + 1 > MAX_DEPTH,
    ensures
        r matches Err(PmmlError::ValidationError(m)) && m@ == depth_message(),
{
}

/// Declarations, comments and processing instructions are never handed out.
pub proof fn skipped_events_never_returned(rem: Seq<XmlEvent>, d: nat, e: XmlEvent)
    requires
        eof_free(rem),
        read_answer(rem, d, Ok(e)),
    ensures
        !is_skipped(e),
{
    lemma_skip_count(rem);
}

/// An empty-element tag, text or any event but a start or end tag leaves the
/// depth unchanged; an end tag lowers it by one, never below zero.
pub proof fn depth_moves_only_on_tags(rem: Seq<XmlEvent>, d: nat, e: XmlEvent)
    requires
        read_answer(rem, d, Ok(e)),
        !(e is Eof),
    ensures
        e is Start ==> read_step(rem, d).1 == d + 1,
        e is End ==> read_step(rem, d).1 == if d > 0 { (d - 1) as nat } else { 0 },
        !(e is Start) && !(e is End) ==> read_step(rem, d).1 == d,
{
}

/// The end of the document is sticky: once the reader answers `Eof` no
/// events are left, and every later read answers `Eof` again at the same depth.
pub proof fn end_of_document_is_sticky(rem: Seq<XmlEvent>, d: nat, r: Result<XmlEvent, PmmlError>, r2: Result<XmlEvent, PmmlError>)
    requires
        eof_free(rem),
        read_answer(rem, d, r),
        r matches Ok(XmlEvent::Eof),
        read_answer(read_step(rem, d).0, read_step(rem, d).1, r2),
    ensures
        read_step(rem, d) == (Seq::<XmlEvent>::empty(), d),
        r2 matches Ok(XmlEvent::Eof),
        read_step(read_step(rem, d).0, read_step(rem, d).1) == (Seq::<XmlEvent>::empty(), d),
{
    lemma_skip_count(rem);
    if skip_count(rem) < rem.len() {
        assert(!(rem[skip_count(rem) as int] is Eof));
    }
    assert(read_step(rem, d).0 =~= Seq::<XmlEvent>::empty());
    assert(skip_count(Seq::<XmlEvent>::empty()) == 0);
}

} // verus!
