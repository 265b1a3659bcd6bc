//! The per-entry metadata document: a one-line key-value text file holding
//! the entry's structured metadata. Its frame is fixed — the bytes of
//! `title = "` in front, a closing quote and a newline behind — and the title
//! stands between them as raw UTF-8, so every title round-trips losslessly.
//! A document that does not carry that frame, or whose middle is not valid
//! UTF-8, falls back to the default metadata rather than failing the scan.

use vstd::prelude::*;
use vstd::utf8::{encode_utf8, decode_utf8, valid_utf8};
use crate::entries::{Meta, MetaView};
use crate::text::{string_from_utf8, string_to_utf8, bytes_range};

verus! {

/// The opening frame of the document: the bytes of `title = "`.
pub open spec fn meta_prefix() -> Seq<u8> {
    seq![116u8, 105u8, 116u8, 108u8, 101u8, 32u8, 61u8, 32u8, 34u8]
}

/// The closing frame of the document: a quote and a newline.
pub open spec fn meta_suffix() -> Seq<u8> {
    seq![34u8, 10u8]
}

/// The document written for given metadata: frame, title bytes, frame.
pub open spec fn spec_render_meta(m: MetaView) -> Seq<u8> {
    meta_prefix() + encode_utf8(m.title) + meta_suffix()
}

/// What parsing a document yields: the framed title when the frame and its
/// UTF-8 middle are intact, the default metadata otherwise.
pub open spec fn spec_parse_meta(doc: Seq<u8>) -> MetaView {
    if doc.len() >= 11 && doc.subrange(0, 9) == meta_prefix() && doc.subrange(
        doc.len() - 2,
        doc.len() as int,
    ) == meta_suffix() && valid_utf8(doc.subrange(9, doc.len() - 2)) {
        MetaView { title: decode_utf8(doc.subrange(9, doc.len() - 2)) }
    } else {
        MetaView { title: Seq::<char>::empty() }
    }
}

/// The opening frame as a vector.
fn meta_prefix_vec() -> (r: Vec<u8>)
    ensures
        r@ == meta_prefix(),
{
    let mut r: Vec<u8> = Vec::new();
    r.push(116u8);
    r.push(105u8);
    r.push(116u8);
    r.push(108u8);
    r.push(101u8);
    r.push(32u8);
    r.push(61u8);
    r.push(32u8);
    r.push(34u8);
    assert(r@ =~= meta_prefix());
    r
}

/// Whether `doc` holds exactly `pat` starting at `off`.
fn bytes_match(doc: &Vec<u8>, off: usize, pat: &Vec<u8>) -> (r: bool)
    requires
        off + pat@.len() <= doc@.len(),
    ensures
        r == (doc@.subrange(off as int, off + pat@.len()) == pat@),
{
    let n = pat.len();
    let dlen = doc.len();
    let mut k: usize = 0;
    while k < n
        invariant
            k <= n,
            n == pat@.len(),
            off + n <= dlen == doc@.len(),
            forall|j: int| 0 <= j < k ==> doc@[off + j] == pat@[j],
        decreases n - k,
    {
        if doc[off + k] != pat[k] {
            assert(doc@.subrange(off as int, off + n)[k as int] != pat@[k as int]);
            return false;
        }
        k = k + 1;
    }
    assert(doc@.subrange(off as int, off + n) =~= pat@);
    true
}

/// Writes the metadata document for `m`.
pub fn render_meta(m: &Meta) -> (r: Vec<u8>)
    ensures
        r@ == spec_render_meta(m@),
{
    let mut r = meta_prefix_vec();
    let mut title = string_to_utf8(&m.title);
    r.append(&mut title);
    r.push(34u8);
    r.push(10u8);
    assert(r@ =~= spec_render_meta(m@));
    r
}

/// Reads a metadata document back, falling back to the default metadata on
/// any malformed input. Parsing never fails.
pub fn parse_meta(doc: &Vec<u8>) -> (r: Meta)
    ensures
        r@ == spec_parse_meta(doc@),
{
    let pre = meta_prefix_vec();
    if doc.len() >= 11 && bytes_match(doc, 0, &pre) {
        let end = doc.len();
        if doc[end - 2] == 34u8 && doc[end - 1] == 10u8 {
            assert(doc@.subrange(end - 2, end as int) =~= meta_suffix());
            let mid = bytes_range(doc, 9, end - 2);
            match string_from_utf8(mid) {
                Some(title) => Meta { title },
                None => Meta::default(),
            }
        } else {
            assert(doc@.subrange(end - 2, end as int) != meta_suffix()) by {
                if doc@.subrange(end - 2, end as int) == meta_suffix() {
                    assert(doc@[end - 2] == meta_suffix()[0]);
                    assert(doc@[end - 1] == meta_suffix()[1]);
                }
            }
            Meta::default()
        }
    } else {
        Meta::default()
    }
}

/// The metadata document round-trips losslessly: parsing what was rendered
/// for any metadata yields that metadata again, whatever its title holds.
pub proof fn lemma_meta_round_trip(m: MetaView)
    ensures
        spec_parse_meta(spec_render_meta(m)) == m,
{
    broadcast use vstd::utf8::encode_utf8_valid_utf8, vstd::utf8::encode_utf8_decode_utf8;

    let u = encode_utf8(m.title);
    let doc = spec_render_meta(m);
    assert(doc.len() == 11 + u.len());
    assert(doc.subrange(0, 9) =~= meta_prefix());
    assert(doc.subrange(doc.len() - 2, doc.len() as int) =~= meta_suffix());
    assert(doc.subrange(9, doc.len() - 2) =~= u);
}

} // verus!
