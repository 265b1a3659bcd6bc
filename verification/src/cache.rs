//! The session-cache codec: the whole application state as one binary
//! record. Integers are laid down little-endian, strings as a length prefix
//! followed by their UTF-8 bytes, sequences as a count prefix followed by
//! their elements. Decoding is total: any byte sequence either is read back
//! into a state or is rejected, and a record produced by the encoder always
//! reads back as the state it was made from.

use vstd::prelude::*;
use vstd::utf8::{encode_utf8, decode_utf8, valid_utf8};
use crate::entries::{
    Meta, MetaView, Image, ImageView, Fonts, FontsView, Color, Project, ProjectView, Website,
    WebsiteView, AppState, AppStateView, image_views, project_views, opt_str_view,
};
use crate::text::{string_from_utf8, string_to_utf8, bytes_range};

verus! {

/// A 64-bit value as eight little-endian bytes.
pub open spec fn enc_u64(v: u64) -> Seq<u8> {
    seq![
        (v & 0xff) as u8,
        ((v >> 8) & 0xff) as u8,
        ((v >> 16) & 0xff) as u8,
        ((v >> 24) & 0xff) as u8,
        ((v >> 32) & 0xff) as u8,
        ((v >> 40) & 0xff) as u8,
        ((v >> 48) & 0xff) as u8,
        ((v >> 56) & 0xff) as u8,
    ]
}

/// A 32-bit value as four little-endian bytes.
pub open spec fn enc_u32(v: u32) -> Seq<u8> {
    seq![
        (v & 0xff) as u8,
        ((v >> 8) & 0xff) as u8,
        ((v >> 16) & 0xff) as u8,
        ((v >> 24) & 0xff) as u8,
    ]
}

/// Eight little-endian bytes combined back into a 64-bit value.
pub open spec fn u64_of_bytes(
    b0: u8,
    b1: u8,
    b2: u8,
    b3: u8,
    b4: u8,
    b5: u8,
    b6: u8,
    b7: u8,
) -> u64 {
    (b0 as u64) | ((b1 as u64) << 8) | ((b2 as u64) << 16) | ((b3 as u64) << 24) | ((b4
        as u64) << 32) | ((b5 as u64) << 40) | ((b6 as u64) << 48) | ((b7 as u64) << 56)
}

/// Four little-endian bytes combined back into a 32-bit value.
pub open spec fn u32_of_bytes(b0: u8, b1: u8, b2: u8, b3: u8) -> u32 {
    (b0 as u32) | ((b1 as u32) << 8) | ((b2 as u32) << 16) | ((b3 as u32) << 24)
}

/// Combining the little-endian bytes of a 64-bit value gives it back.
pub proof fn lemma_u64_round_trip(v: u64)
    ensures
        u64_of_bytes(
            (v & 0xff) as u8,
            ((v >> 8) & 0xff) as u8,
            ((v >> 16) & 0xff) as u8,
            ((v >> 24) & 0xff) as u8,
            ((v >> 32) & 0xff) as u8,
            ((v >> 40) & 0xff) as u8,
            ((v >> 48) & 0xff) as u8,
            ((v >> 56) & 0xff) as u8,
        ) == v,
{
    assert(((v & 0xff) as u8) as u64 == (v & 0xff) && (((v >> 8) & 0xff) as u8) as u64 == ((v >> 8)
        & 0xff) && (((v >> 16) & 0xff) as u8) as u64 == ((v >> 16) & 0xff) && (((v >> 24)
        & 0xff) as u8) as u64 == ((v >> 24) & 0xff) && (((v >> 32) & 0xff) as u8) as u64 == ((v
        >> 32) & 0xff) && (((v >> 40) & 0xff) as u8) as u64 == ((v >> 40) & 0xff) && (((v >> 48)
        & 0xff) as u8) as u64 == ((v >> 48) & 0xff) && (((v >> 56) & 0xff) as u8) as u64 == ((v
        >> 56) & 0xff)) by (bit_vector);
    assert((v & 0xff) | (((v >> 8) & 0xff) << 8) | (((v >> 16) & 0xff) << 16) | (((v >> 24)
        & 0xff) << 24) | (((v >> 32) & 0xff) << 32) | (((v >> 40) & 0xff) << 40) | (((v >> 48)
        & 0xff) << 48) | (((v >> 56) & 0xff) << 56) == v) by (bit_vector);
}

/// Combining the little-endian bytes of a 32-bit value gives it back.
pub proof fn lemma_u32_round_trip(v: u32)
    ensures
        u32_of_bytes(
            (v & 0xff) as u8,
            ((v >> 8) & 0xff) as u8,
            ((v >> 16) & 0xff) as u8,
            ((v >> 24) & 0xff) as u8,
        ) == v,
{
    assert(((v & 0xff) as u8) as u32 == (v & 0xff) && (((v >> 8) & 0xff) as u8) as u32 == ((v >> 8)
        & 0xff) && (((v >> 16) & 0xff) as u8) as u32 == ((v >> 16) & 0xff) && (((v >> 24)
        & 0xff) as u8) as u32 == ((v >> 24) & 0xff)) by (bit_vector);
    assert((v & 0xff) | (((v >> 8) & 0xff) << 8) | (((v >> 16) & 0xff) << 16) | (((v >> 24)
        & 0xff) << 24) == v) by (bit_vector);
}

/// Reads a 64-bit value where the record holds one.
pub open spec fn dec_u64(b: Seq<u8>, pos: int) -> Option<(u64, int)> {
    if 0 <= pos && pos + 8 <= b.len() {
        Some(
            (
                u64_of_bytes(
                    b[pos],
                    b[pos + 1],
                    b[pos + 2],
                    b[pos + 3],
                    b[pos + 4],
                    b[pos + 5],
                    b[pos + 6],
                    b[pos + 7],
                ),
                pos + 8,
            ),
        )
    } else {
        None
    }
}

/// Reads a 32-bit value where the record holds one.
pub open spec fn dec_u32(b: Seq<u8>, pos: int) -> Option<(u32, int)> {
    if 0 <= pos && pos + 4 <= b.len() {
        Some((u32_of_bytes(b[pos], b[pos + 1], b[pos + 2], b[pos + 3]), pos + 4))
    } else {
        None
    }
}

/// A record that holds `enc_u64(v)` at `pos` reads back as `v`.
pub proof fn lemma_dec_enc_u64(b: Seq<u8>, pos: int, v: u64)
    requires
        0 <= pos,
        pos + 8 <= b.len(),
        b.subrange(pos, pos + 8) == enc_u64(v),
    ensures
        dec_u64(b, pos) == Some((v, pos + 8)),
{
    assert forall|i: int| 0 <= i < 8 implies b[pos + i] == enc_u64(v)[i] by {
        assert(b.subrange(pos, pos + 8)[i] == b[pos + i]);
    }
    lemma_u64_round_trip(v);
}

/// A record that holds `enc_u32(v)` at `pos` reads back as `v`.
pub proof fn lemma_dec_enc_u32(b: Seq<u8>, pos: int, v: u32)
    requires
        0 <= pos,
        pos + 4 <= b.len(),
        b.subrange(pos, pos + 4) == enc_u32(v),
    ensures
        dec_u32(b, pos) == Some((v, pos + 4)),
{
    assert forall|i: int| 0 <= i < 4 implies b[pos + i] == enc_u32(v)[i] by {
        assert(b.subrange(pos, pos + 4)[i] == b[pos + i]);
    }
    lemma_u32_round_trip(v);
}

/// Appends the little-endian bytes of `v` to the record being built.
fn write_u64(out: &mut Vec<u8>, v: u64)
    ensures
        final(out)@ == old(out)@ + enc_u64(v),
{
    proof {
        assert(v & 0xff < 256 && (v >> 8) & 0xff < 256 && (v >> 16) & 0xff < 256 && (v >> 24)
            & 0xff < 256 && (v >> 32) & 0xff < 256 && (v >> 40) & 0xff < 256 && (v >> 48) & 0xff
            < 256 && (v >> 56) & 0xff < 256) by (bit_vector);
    }
    out.push((v & 0xff) as u8);
    out.push(((v >> 8) & 0xff) as u8);
    out.push(((v >> 16) & 0xff) as u8);
    out.push(((v >> 24) & 0xff) as u8);
    out.push(((v >> 32) & 0xff) as u8);
    out.push(((v >> 40) & 0xff) as u8);
    out.push(((v >> 48) & 0xff) as u8);
    out.push(((v >> 56) & 0xff) as u8);
    assert(out@ =~= old(out)@ + enc_u64(v));
}

/// Appends the little-endian bytes of `v` to the record being built.
fn write_u32(out: &mut Vec<u8>, v: u32)
    ensures
        final(out)@ == old(out)@ + enc_u32(v),
{
    proof {
        assert(v & 0xff < 256 && (v >> 8) & 0xff < 256 && (v >> 16) & 0xff < 256 && (v >> 24)
            & 0xff < 256) by (bit_vector);
    }
    out.push((v & 0xff) as u8);
    out.push(((v >> 8) & 0xff) as u8);
    out.push(((v >> 16) & 0xff) as u8);
    out.push(((v >> 24) & 0xff) as u8);
    assert(out@ =~= old(out)@ + enc_u32(v));
}

/// Reads a 64-bit value, mirroring [`dec_u64`].
fn read_u64(buf: &Vec<u8>, pos: usize) -> (r: Option<(u64, usize)>)
    ensures
        match r {
            Some(p) => dec_u64(buf@, pos as int) == Some((p.0, p.1 as int)),
            None => dec_u64(buf@, pos as int) is None,
        },
{
    if pos <= buf.len() && buf.len() - pos >= 8 {
        let v = u64_from(
            buf[pos],
            buf[pos + 1],
            buf[pos + 2],
            buf[pos + 3],
            buf[pos + 4],
            buf[pos + 5],
            buf[pos + 6],
            buf[pos + 7],
        );
        Some((v, pos + 8))
    } else {
        None
    }
}

/// Reads a 32-bit value, mirroring [`dec_u32`].
fn read_u32(buf: &Vec<u8>, pos: usize) -> (r: Option<(u32, usize)>)
    ensures
        match r {
            Some(p) => dec_u32(buf@, pos as int) == Some((p.0, p.1 as int)),
            None => dec_u32(buf@, pos as int) is None,
        },
{
    if pos <= buf.len() && buf.len() - pos >= 4 {
        let v = u32_from(buf[pos], buf[pos + 1], buf[pos + 2], buf[pos + 3]);
        Some((v, pos + 4))
    } else {
        None
    }
}

/// Combines eight little-endian bytes, mirroring [`u64_of_bytes`].
fn u64_from(b0: u8, b1: u8, b2: u8, b3: u8, b4: u8, b5: u8, b6: u8, b7: u8) -> (r: u64)
    ensures
        r == u64_of_bytes(b0, b1, b2, b3, b4, b5, b6, b7),
{
    (b0 as u64) | ((b1 as u64) << 8) | ((b2 as u64) << 16) | ((b3 as u64) << 24) | ((b4
        as u64) << 32) | ((b5 as u64) << 40) | ((b6 as u64) << 48) | ((b7 as u64) << 56)
}

/// Combines four little-endian bytes, mirroring [`u32_of_bytes`].
fn u32_from(b0: u8, b1: u8, b2: u8, b3: u8) -> (r: u32)
    ensures
        r == u32_of_bytes(b0, b1, b2, b3),
{
    (b0 as u32) | ((b1 as u32) << 8) | ((b2 as u32) << 16) | ((b3 as u32) << 24)
}


/// Splitting a window that holds a concatenation splits it at the seam.
proof fn lemma_subrange_split(b: Seq<u8>, pos: int, x: Seq<u8>, y: Seq<u8>)
    requires
        0 <= pos,
        pos + x.len() + y.len() <= b.len(),
        b.subrange(pos, pos + x.len() + y.len()) == x + y,
    ensures
        b.subrange(pos, pos + x.len()) == x,
        b.subrange(pos + x.len(), pos + x.len() + y.len()) == y,
{
    let whole = b.subrange(pos, pos + x.len() + y.len());
    assert forall|i: int| 0 <= i < x.len() implies b.subrange(pos, pos + x.len())[i] == x[i] by {
        assert(whole[i] == (x + y)[i]);
    }
    assert(b.subrange(pos, pos + x.len()) =~= x);
    assert forall|i: int|
        0 <= i < y.len() implies b.subrange(pos + x.len(), pos + x.len() + y.len())[i] == y[i] by {
        assert(whole[x.len() + i] == (x + y)[x.len() + i]);
    }
    assert(b.subrange(pos + x.len(), pos + x.len() + y.len()) =~= y);
}

/// Whether a string's UTF-8 form fits behind a length prefix.
pub open spec fn wf_str(s: Seq<char>) -> bool {
    encode_utf8(s).len() <= u64::MAX
}

/// A string as a length prefix followed by its UTF-8 bytes.
pub open spec fn enc_str(s: Seq<char>) -> Seq<u8> {
    enc_u64(encode_utf8(s).len() as u64) + encode_utf8(s)
}

/// Reads a string where the record holds one.
pub open spec fn dec_str(b: Seq<u8>, pos: int) -> Option<(Seq<char>, int)> {
    match dec_u64(b, pos) {
        Some((n, p)) => if p + n <= b.len() {
            let bytes = b.subrange(p, p + n);
            if valid_utf8(bytes) {
                Some((decode_utf8(bytes), p + n))
            } else {
                None
            }
        } else {
            None
        },
        None => None,
    }
}

/// A record that holds `enc_str(s)` at `pos` reads back as `s`.
pub proof fn lemma_dec_enc_str(b: Seq<u8>, pos: int, s: Seq<char>)
    requires
        wf_str(s),
        0 <= pos,
        pos + enc_str(s).len() <= b.len(),
        b.subrange(pos, pos + enc_str(s).len()) == enc_str(s),
    ensures
        dec_str(b, pos) == Some((s, pos + enc_str(s).len())),
{
    broadcast use vstd::utf8::encode_utf8_valid_utf8, vstd::utf8::encode_utf8_decode_utf8;

    let u = encode_utf8(s);
    let n = u.len() as u64;
    lemma_subrange_split(b, pos, enc_u64(n), u);
    lemma_dec_enc_u64(b, pos, n);
}

/// Whether an optional string is encodable.
pub open spec fn wf_opt_str(o: Option<Seq<char>>) -> bool {
    o matches Some(s) ==> wf_str(s)
}

/// An optional string as a presence byte, then the string when present.
pub open spec fn enc_opt_str(o: Option<Seq<char>>) -> Seq<u8> {
    match o {
        None => seq![0u8],
        Some(s) => seq![1u8] + enc_str(s),
    }
}

/// Reads an optional string where the record holds one.
pub open spec fn dec_opt_str(b: Seq<u8>, pos: int) -> Option<(Option<Seq<char>>, int)> {
    if 0 <= pos && pos + 1 <= b.len() {
        if b[pos] == 0 {
            Some((None, pos + 1))
        } else if b[pos] == 1 {
            match dec_str(b, pos + 1) {
                Some((s, p)) => Some((Some(s), p)),
                None => None,
            }
        } else {
            None
        }
    } else {
        None
    }
}

/// A record that holds `enc_opt_str(o)` at `pos` reads back as `o`.
pub proof fn lemma_dec_enc_opt_str(b: Seq<u8>, pos: int, o: Option<Seq<char>>)
    requires
        wf_opt_str(o),
        0 <= pos,
        pos + enc_opt_str(o).len() <= b.len(),
        b.subrange(pos, pos + enc_opt_str(o).len()) == enc_opt_str(o),
    ensures
        dec_opt_str(b, pos) == Some((o, pos + enc_opt_str(o).len())),
{
    match o {
        None => {
            assert(b[pos] == b.subrange(pos, pos + 1)[0]);
        },
        Some(s) => {
            lemma_subrange_split(b, pos, seq![1u8], enc_str(s));
            assert(b[pos] == b.subrange(pos, pos + 1)[0]);
            lemma_dec_enc_str(b, pos + 1, s);
        },
    }
}

/// Whether an image is encodable.
pub open spec fn wf_image(i: ImageView) -> bool {
    wf_str(i.path)
}

/// An image as its position followed by its backing path.
pub open spec fn enc_image(i: ImageView) -> Seq<u8> {
    enc_u32(i.position) + enc_str(i.path)
}

/// Reads an image where the record holds one.
pub open spec fn dec_image(b: Seq<u8>, pos: int) -> Option<(ImageView, int)> {
    match dec_u32(b, pos) {
        Some((position, p)) => match dec_str(b, p) {
            Some((path, p2)) => Some((ImageView { position, path }, p2)),
            None => None,
        },
        None => None,
    }
}

/// A record that holds `enc_image(i)` at `pos` reads back as `i`.
pub proof fn lemma_dec_enc_image(b: Seq<u8>, pos: int, i: ImageView)
    requires
        wf_image(i),
        0 <= pos,
        pos + enc_image(i).len() <= b.len(),
        b.subrange(pos, pos + enc_image(i).len()) == enc_image(i),
    ensures
        dec_image(b, pos) == Some((i, pos + enc_image(i).len())),
{
    lemma_subrange_split(b, pos, enc_u32(i.position), enc_str(i.path));
    lemma_dec_enc_u32(b, pos, i.position);
    lemma_dec_enc_str(b, pos + 4, i.path);
}

/// Whether an image sequence is encodable.
pub open spec fn wf_images(s: Seq<ImageView>) -> bool {
    s.len() <= u64::MAX && forall|i: int| 0 <= i < s.len() ==> wf_image(#[trigger] s[i])
}

/// The elements of an image sequence, laid down in order.
pub open spec fn enc_image_list(s: Seq<ImageView>) -> Seq<u8>
    decreases s.len(),
{
    if s.len() == 0 {
        Seq::<u8>::empty()
    } else {
        enc_image(s[0]) + enc_image_list(s.drop_first())
    }
}

/// Appending an element appends its encoding.
pub proof fn lemma_enc_image_list_push(s: Seq<ImageView>, x: ImageView)
    ensures
        enc_image_list(s.push(x)) == enc_image_list(s) + enc_image(x),
    decreases s.len(),
{
    if s.len() == 0 {
        let t = s.push(x);
        assert(t[0] == x);
        assert(t.drop_first() =~= Seq::<ImageView>::empty());
        assert(enc_image_list(t.drop_first()) == Seq::<u8>::empty());
        assert(enc_image_list(t) =~= enc_image(x));
        assert(enc_image_list(s) + enc_image(x) =~= enc_image(x));
    } else {
        assert(s.push(x).drop_first() =~= s.drop_first().push(x));
        lemma_enc_image_list_push(s.drop_first(), x);
        assert(enc_image_list(s.push(x)) =~= enc_image_list(s) + enc_image(x));
    }
}

/// An image sequence as a count prefix followed by its elements.
pub open spec fn enc_images(s: Seq<ImageView>) -> Seq<u8> {
    enc_u64(s.len() as u64) + enc_image_list(s)
}

/// Reads `n` images in a row where the record holds them.
pub open spec fn dec_image_list(b: Seq<u8>, pos: int, n: nat) -> Option<(Seq<ImageView>, int)>
    decreases n,
{
    if n == 0 {
        Some((Seq::<ImageView>::empty(), pos))
    } else {
        match dec_image(b, pos) {
            Some((x, p)) => match dec_image_list(b, p, (n - 1) as nat) {
                Some((rest, p2)) => Some((seq![x] + rest, p2)),
                None => None,
            },
            None => None,
        }
    }
}

/// Reads an image sequence where the record holds one.
pub open spec fn dec_images(b: Seq<u8>, pos: int) -> Option<(Seq<ImageView>, int)> {
    match dec_u64(b, pos) {
        Some((n, p)) => dec_image_list(b, p, n as nat),
        None => None,
    }
}

/// A record that holds the elements of `s` at `pos` reads back as `s`.
pub proof fn lemma_dec_enc_image_list(b: Seq<u8>, pos: int, s: Seq<ImageView>)
    requires
        wf_images(s),
        0 <= pos,
        pos + enc_image_list(s).len() <= b.len(),
        b.subrange(pos, pos + enc_image_list(s).len()) == enc_image_list(s),
    ensures
        dec_image_list(b, pos, s.len()) == Some((s, pos + enc_image_list(s).len())),
    decreases s.len(),
{
    if s.len() == 0 {
    } else {
        lemma_subrange_split(b, pos, enc_image(s[0]), enc_image_list(s.drop_first()));
        lemma_dec_enc_image(b, pos, s[0]);
        lemma_dec_enc_image_list(b, pos + enc_image(s[0]).len(), s.drop_first());
        assert(seq![s[0]] + s.drop_first() =~= s);
    }
}

/// A record that holds `enc_images(s)` at `pos` reads back as `s`.
pub proof fn lemma_dec_enc_images(b: Seq<u8>, pos: int, s: Seq<ImageView>)
    requires
        wf_images(s),
        0 <= pos,
        pos + enc_images(s).len() <= b.len(),
        b.subrange(pos, pos + enc_images(s).len()) == enc_images(s),
    ensures
        dec_images(b, pos) == Some((s, pos + enc_images(s).len())),
{
    lemma_subrange_split(b, pos, enc_u64(s.len() as u64), enc_image_list(s));
    lemma_dec_enc_u64(b, pos, s.len() as u64);
    lemma_dec_enc_image_list(b, pos + 8, s);
}

/// Whether a project is encodable.
pub open spec fn wf_project(p: ProjectView) -> bool {
    wf_str(p.path) && wf_str(p.meta.title) && wf_str(p.description) && wf_images(p.images)
}

/// A project as its id, path, metadata, description and images in a row.
pub open spec fn enc_project(p: ProjectView) -> Seq<u8> {
    enc_u32(p.id) + enc_str(p.path) + enc_str(p.meta.title) + enc_str(p.description) + enc_images(
        p.images,
    )
}

/// Reads a project where the record holds one.
pub open spec fn dec_project(b: Seq<u8>, pos: int) -> Option<(ProjectView, int)> {
    match dec_u32(b, pos) {
        Some((id, p1)) => match dec_str(b, p1) {
            Some((path, p2)) => match dec_str(b, p2) {
                Some((title, p3)) => match dec_str(b, p3) {
                    Some((description, p4)) => match dec_images(b, p4) {
                        Some((images, p5)) => Some(
                            (
                                ProjectView {
                                    id,
                                    path,
                                    meta: MetaView { title },
                                    description,
                                    images,
                                },
                                p5,
                            ),
                        ),
                        None => None,
                    },
                    None => None,
                },
                None => None,
            },
            None => None,
        },
        None => None,
    }
}

/// A record that holds `enc_project(p)` at `pos` reads back as `p`.
#[verifier::rlimit(60)]
pub proof fn lemma_dec_enc_project(b: Seq<u8>, pos: int, p: ProjectView)
    requires
        wf_project(p),
        0 <= pos,
        pos + enc_project(p).len() <= b.len(),
        b.subrange(pos, pos + enc_project(p).len()) == enc_project(p),
    ensures
        dec_project(b, pos) == Some((p, pos + enc_project(p).len())),
{
    let e1 = enc_u32(p.id);
    let e2 = enc_str(p.path);
    let e3 = enc_str(p.meta.title);
    let e4 = enc_str(p.description);
    let e5 = enc_images(p.images);
    assert(enc_project(p) =~= e1 + (e2 + e3 + e4 + e5));
    lemma_subrange_split(b, pos, e1, e2 + e3 + e4 + e5);
    let p1 = pos + e1.len();
    assert(e2 + e3 + e4 + e5 =~= e2 + (e3 + e4 + e5));
    lemma_subrange_split(b, p1, e2, e3 + e4 + e5);
    let p2 = p1 + e2.len();
    assert(e3 + e4 + e5 =~= e3 + (e4 + e5));
    lemma_subrange_split(b, p2, e3, e4 + e5);
    let p3 = p2 + e3.len();
    lemma_subrange_split(b, p3, e4, e5);
    let p4 = p3 + e4.len();
    lemma_dec_enc_u32(b, pos, p.id);
    lemma_dec_enc_str(b, p1, p.path);
    lemma_dec_enc_str(b, p2, p.meta.title);
    lemma_dec_enc_str(b, p3, p.description);
    lemma_dec_enc_images(b, p4, p.images);
}

/// Whether a project sequence is encodable.
pub open spec fn wf_projects(s: Seq<ProjectView>) -> bool {
    s.len() <= u64::MAX && forall|i: int| 0 <= i < s.len() ==> wf_project(#[trigger] s[i])
}

/// The elements of a project sequence, laid down in order.
pub open spec fn enc_project_list(s: Seq<ProjectView>) -> Seq<u8>
    decreases s.len(),
{
    if s.len() == 0 {
        Seq::<u8>::empty()
    } else {
        enc_project(s[0]) + enc_project_list(s.drop_first())
    }
}

/// Appending an element appends its encoding.
#[verifier::rlimit(60)]
pub proof fn lemma_enc_project_list_push(s: Seq<ProjectView>, x: ProjectView)
    ensures
        enc_project_list(s.push(x)) == enc_project_list(s) + enc_project(x),
    decreases s.len(),
{
    if s.len() == 0 {
        let t = s.push(x);
        assert(t[0] == x);
        assert(t.drop_first() =~= Seq::<ProjectView>::empty());
        assert(enc_project_list(t.drop_first()) == Seq::<u8>::empty());
        assert(enc_project_list(t) =~= enc_project(x));
        assert(enc_project_list(s) + enc_project(x) =~= enc_project(x));
    } else {
        assert(s.push(x).drop_first() =~= s.drop_first().push(x));
        lemma_enc_project_list_push(s.drop_first(), x);
        assert(enc_project_list(s.push(x)) =~= enc_project_list(s) + enc_project(x));
    }
}

/// A project sequence as a count prefix followed by its elements.
pub open spec fn enc_projects(s: Seq<ProjectView>) -> Seq<u8> {
    enc_u64(s.len() as u64) + enc_project_list(s)
}

/// Reads `n` projects in a row where the record holds them.
pub open spec fn dec_project_list(b: Seq<u8>, pos: int, n: nat) -> Option<(Seq<ProjectView>, int)>
    decreases n,
{
    if n == 0 {
        Some((Seq::<ProjectView>::empty(), pos))
    } else {
        match dec_project(b, pos) {
            Some((x, p)) => match dec_project_list(b, p, (n - 1) as nat) {
                Some((rest, p2)) => Some((seq![x] + rest, p2)),
                None => None,
            },
            None => None,
        }
    }
}

/// Reads a project sequence where the record holds one.
pub open spec fn dec_projects(b: Seq<u8>, pos: int) -> Option<(Seq<ProjectView>, int)> {
    match dec_u64(b, pos) {
        Some((n, p)) => dec_project_list(b, p, n as nat),
        None => None,
    }
}

/// A record that holds the elements of `s` at `pos` reads back as `s`.
pub proof fn lemma_dec_enc_project_list(b: Seq<u8>, pos: int, s: Seq<ProjectView>)
    requires
        wf_projects(s),
        0 <= pos,
        pos + enc_project_list(s).len() <= b.len(),
        b.subrange(pos, pos + enc_project_list(s).len()) == enc_project_list(s),
    ensures
        dec_project_list(b, pos, s.len()) == Some((s, pos + enc_project_list(s).len())),
    decreases s.len(),
{
    if s.len() == 0 {
    } else {
        lemma_subrange_split(b, pos, enc_project(s[0]), enc_project_list(s.drop_first()));
        lemma_dec_enc_project(b, pos, s[0]);
        lemma_dec_enc_project_list(b, pos + enc_project(s[0]).len(), s.drop_first());
        assert(seq![s[0]] + s.drop_first() =~= s);
    }
}

/// A record that holds `enc_projects(s)` at `pos` reads back as `s`.
pub proof fn lemma_dec_enc_projects(b: Seq<u8>, pos: int, s: Seq<ProjectView>)
    requires
        wf_projects(s),
        0 <= pos,
        pos + enc_projects(s).len() <= b.len(),
        b.subrange(pos, pos + enc_projects(s).len()) == enc_projects(s),
    ensures
        dec_projects(b, pos) == Some((s, pos + enc_projects(s).len())),
{
    lemma_subrange_split(b, pos, enc_u64(s.len() as u64), enc_project_list(s));
    lemma_dec_enc_u64(b, pos, s.len() as u64);
    lemma_dec_enc_project_list(b, pos + 8, s);
}

/// Whether a font set is encodable.
pub open spec fn wf_fonts(f: FontsView) -> bool {
    wf_opt_str(f.bold) && wf_opt_str(f.normal)
}

/// A font set as its bold and normal references in a row.
pub open spec fn enc_fonts(f: FontsView) -> Seq<u8> {
    enc_opt_str(f.bold) + enc_opt_str(f.normal)
}

/// Reads a font set where the record holds one.
pub open spec fn dec_fonts(b: Seq<u8>, pos: int) -> Option<(FontsView, int)> {
    match dec_opt_str(b, pos) {
        Some((bold, p)) => match dec_opt_str(b, p) {
            Some((normal, p2)) => Some((FontsView { bold, normal }, p2)),
            None => None,
        },
        None => None,
    }
}

/// A record that holds `enc_fonts(f)` at `pos` reads back as `f`.
pub proof fn lemma_dec_enc_fonts(b: Seq<u8>, pos: int, f: FontsView)
    requires
        wf_fonts(f),
        0 <= pos,
        pos + enc_fonts(f).len() <= b.len(),
        b.subrange(pos, pos + enc_fonts(f).len()) == enc_fonts(f),
    ensures
        dec_fonts(b, pos) == Some((f, pos + enc_fonts(f).len())),
{
    lemma_subrange_split(b, pos, enc_opt_str(f.bold), enc_opt_str(f.normal));
    lemma_dec_enc_opt_str(b, pos, f.bold);
    lemma_dec_enc_opt_str(b, pos + enc_opt_str(f.bold).len(), f.normal);
}

/// A color as its four channels, one byte each.
pub open spec fn enc_color(c: Color) -> Seq<u8> {
    seq![c.red, c.green, c.blue, c.alpha]
}

/// Reads a color where the record holds one.
pub open spec fn dec_color(b: Seq<u8>, pos: int) -> Option<(Color, int)> {
    if 0 <= pos && pos + 4 <= b.len() {
        Some((Color { red: b[pos], green: b[pos + 1], blue: b[pos + 2], alpha: b[pos + 3] }, pos + 4))
    } else {
        None
    }
}

/// A record that holds `enc_color(c)` at `pos` reads back as `c`.
pub proof fn lemma_dec_enc_color(b: Seq<u8>, pos: int, c: Color)
    requires
        0 <= pos,
        pos + 4 <= b.len(),
        b.subrange(pos, pos + 4) == enc_color(c),
    ensures
        dec_color(b, pos) == Some((c, pos + 4)),
{
    assert forall|i: int| 0 <= i < 4 implies b[pos + i] == enc_color(c)[i] by {
        assert(b.subrange(pos, pos + 4)[i] == b[pos + i]);
    }
}

/// Whether a site model is encodable.
pub open spec fn wf_website(w: WebsiteView) -> bool {
    wf_str(w.title) && wf_projects(w.portfolio) && wf_str(w.about) && wf_str(w.image) && wf_fonts(
        w.fonts,
    )
}

/// A site model as its fields in declaration order.
pub open spec fn enc_website(w: WebsiteView) -> Seq<u8> {
    enc_str(w.title) + enc_projects(w.portfolio) + enc_str(w.about) + enc_str(w.image) + enc_fonts(
        w.fonts,
    ) + enc_color(w.accent_color)
}

/// Reads a site model where the record holds one.
pub open spec fn dec_website(b: Seq<u8>, pos: int) -> Option<(WebsiteView, int)> {
    match dec_str(b, pos) {
        Some((title, p1)) => match dec_projects(b, p1) {
            Some((portfolio, p2)) => match dec_str(b, p2) {
                Some((about, p3)) => match dec_str(b, p3) {
                    Some((image, p4)) => match dec_fonts(b, p4) {
                        Some((fonts, p5)) => match dec_color(b, p5) {
                            Some((accent_color, p6)) => Some(
                                (
                                    WebsiteView {
                                        title,
                                        portfolio,
                                        about,
                                        image,
                                        fonts,
                                        accent_color,
                                    },
                                    p6,
                                ),
                            ),
                            None => None,
                        },
                        None => None,
                    },
                    None => None,
                },
                None => None,
            },
            None => None,
        },
        None => None,
    }
}

/// A record that holds `enc_website(w)` at `pos` reads back as `w`.
#[verifier::rlimit(60)]
pub proof fn lemma_dec_enc_website(b: Seq<u8>, pos: int, w: WebsiteView)
    requires
        wf_website(w),
        0 <= pos,
        pos + enc_website(w).len() <= b.len(),
        b.subrange(pos, pos + enc_website(w).len()) == enc_website(w),
    ensures
        dec_website(b, pos) == Some((w, pos + enc_website(w).len())),
{
    let e1 = enc_str(w.title);
    let e2 = enc_projects(w.portfolio);
    let e3 = enc_str(w.about);
    let e4 = enc_str(w.image);
    let e5 = enc_fonts(w.fonts);
    let e6 = enc_color(w.accent_color);
    assert(enc_website(w) =~= e1 + (e2 + e3 + e4 + e5 + e6));
    lemma_subrange_split(b, pos, e1, e2 + e3 + e4 + e5 + e6);
    let p1 = pos + e1.len();
    assert(e2 + e3 + e4 + e5 + e6 =~= e2 + (e3 + e4 + e5 + e6));
    lemma_subrange_split(b, p1, e2, e3 + e4 + e5 + e6);
    let p2 = p1 + e2.len();
    assert(e3 + e4 + e5 + e6 =~= e3 + (e4 + e5 + e6));
    lemma_subrange_split(b, p2, e3, e4 + e5 + e6);
    let p3 = p2 + e3.len();
    assert(e4 + e5 + e6 =~= e4 + (e5 + e6));
    lemma_subrange_split(b, p3, e4, e5 + e6);
    let p4 = p3 + e4.len();
    lemma_subrange_split(b, p4, e5, e6);
    let p5 = p4 + e5.len();
    lemma_dec_enc_str(b, pos, w.title);
    lemma_dec_enc_projects(b, p1, w.portfolio);
    lemma_dec_enc_str(b, p2, w.about);
    lemma_dec_enc_str(b, p3, w.image);
    lemma_dec_enc_fonts(b, p4, w.fonts);
    lemma_dec_enc_color(b, p5, w.accent_color);
}

/// Whether an application state is encodable. Every state held in memory is:
/// its strings and sequences all fit in the address space.
pub open spec fn wf_state(s: AppStateView) -> bool {
    wf_str(s.source) && wf_website(s.website)
}

/// The whole application state as one binary record.
pub open spec fn spec_encode_state(s: AppStateView) -> Seq<u8> {
    enc_str(s.source) + enc_website(s.website)
}

/// Reads an application state where the record holds one.
pub open spec fn dec_state(b: Seq<u8>, pos: int) -> Option<(AppStateView, int)> {
    match dec_str(b, pos) {
        Some((source, p1)) => match dec_website(b, p1) {
            Some((website, p2)) => Some((AppStateView { source, website }, p2)),
            None => None,
        },
        None => None,
    }
}

/// What loading a whole cache record yields: the state it holds, or nothing
/// when the bytes are not exactly one encoded state.
pub open spec fn spec_decode_state(b: Seq<u8>) -> Option<AppStateView> {
    match dec_state(b, 0) {
        Some((v, end)) => if end == b.len() {
            Some(v)
        } else {
            None
        },
        None => None,
    }
}

/// Storing an application state and loading it back yields the same state:
/// the session-cache round trip loses nothing.
pub proof fn lemma_cache_round_trip(s: AppStateView)
    requires
        wf_state(s),
    ensures
        spec_decode_state(spec_encode_state(s)) == Some(s),
{
    let b = spec_encode_state(s);
    assert(b.subrange(0, b.len() as int) =~= b);
    lemma_subrange_split(b, 0, enc_str(s.source), enc_website(s.website));
    lemma_dec_enc_str(b, 0, s.source);
    lemma_dec_enc_website(b, enc_str(s.source).len() as int, s.website);
}

/// Appends the record form of a string.
fn write_str(out: &mut Vec<u8>, s: &String)
    ensures
        final(out)@ == old(out)@ + enc_str(s@),
        wf_str(s@),
{
    let mut bytes = string_to_utf8(s);
    let n: usize = bytes.len();
    write_u64(out, n as u64);
    out.append(&mut bytes);
    assert(out@ =~= old(out)@ + enc_str(s@));
}

/// Appends the record form of an optional string.
fn write_opt_str(out: &mut Vec<u8>, o: &Option<String>)
    ensures
        final(out)@ == old(out)@ + enc_opt_str(opt_str_view(*o)),
        wf_opt_str(opt_str_view(*o)),
{
    match o {
        None => {
            out.push(0u8);
            assert(out@ =~= old(out)@ + enc_opt_str(None));
        },
        Some(s) => {
            out.push(1u8);
            write_str(out, s);
            assert(out@ =~= old(out)@ + enc_opt_str(opt_str_view(*o)));
        },
    }
}

/// Appends the record form of an image.
fn write_image(out: &mut Vec<u8>, img: &Image)
    ensures
        final(out)@ == old(out)@ + enc_image(img@),
        wf_image(img@),
{
    write_u32(out, img.position);
    write_str(out, &img.path);
    assert(out@ =~= old(out)@ + enc_image(img@));
}

/// Appends the record form of an image sequence.
fn write_images(out: &mut Vec<u8>, v: &Vec<Image>)
    ensures
        final(out)@ == old(out)@ + enc_images(image_views(v@)),
        wf_images(image_views(v@)),
{
    let n: usize = v.len();
    write_u64(out, n as u64);
    let ghost base = out@;
    let ghost views = image_views(v@);
    let mut i: usize = 0;
    while i < n
        invariant
            i <= n,
            n == v@.len(),
            views == image_views(v@),
            views.len() == n,
            out@ == base + enc_image_list(views.take(i as int)),
            forall|k: int| 0 <= k < i ==> wf_image(#[trigger] views[k]),
        decreases n - i,
    {
        write_image(out, &v[i]);
        proof {
            assert(views[i as int] == v@[i as int]@);
            assert(views.take(i + 1) =~= views.take(i as int).push(views[i as int]));
            lemma_enc_image_list_push(views.take(i as int), views[i as int]);
        }
        i = i + 1;
    }
    proof {
        assert(views.take(n as int) =~= views);
        assert(out@ =~= old(out)@ + enc_images(views));
    }
}

/// Appends the record form of a project.
fn write_project(out: &mut Vec<u8>, p: &Project)
    ensures
        final(out)@ == old(out)@ + enc_project(p@),
        wf_project(p@),
{
    write_u32(out, p.id);
    write_str(out, &p.path);
    write_str(out, &p.meta.title);
    write_str(out, &p.description);
    write_images(out, &p.images);
    assert(out@ =~= old(out)@ + enc_project(p@));
}

/// Appends the record form of a project sequence.
fn write_projects(out: &mut Vec<u8>, v: &Vec<Project>)
    ensures
        final(out)@ == old(out)@ + enc_projects(project_views(v@)),
        wf_projects(project_views(v@)),
{
    let n: usize = v.len();
    write_u64(out, n as u64);
    let ghost base = out@;
    let ghost views = project_views(v@);
    let mut i: usize = 0;
    while i < n
        invariant
            i <= n,
            n == v@.len(),
            views == project_views(v@),
            views.len() == n,
            out@ == base + enc_project_list(views.take(i as int)),
            forall|k: int| 0 <= k < i ==> wf_project(#[trigger] views[k]),
        decreases n - i,
    {
        write_project(out, &v[i]);
        proof {
            assert(views[i as int] == v@[i as int]@);
            assert(views.take(i + 1) =~= views.take(i as int).push(views[i as int]));
            lemma_enc_project_list_push(views.take(i as int), views[i as int]);
        }
        i = i + 1;
    }
    proof {
        assert(views.take(n as int) =~= views);
        assert(out@ =~= old(out)@ + enc_projects(views));
    }
}

/// Appends the record form of a font set.
fn write_fonts(out: &mut Vec<u8>, f: &Fonts)
    ensures
        final(out)@ == old(out)@ + enc_fonts(f@),
        wf_fonts(f@),
{
    write_opt_str(out, &f.bold);
    write_opt_str(out, &f.normal);
    assert(out@ =~= old(out)@ + enc_fonts(f@));
}

/// Appends the record form of a color.
fn write_color(out: &mut Vec<u8>, c: &Color)
    ensures
        final(out)@ == old(out)@ + enc_color(*c),
{
    out.push(c.red);
    out.push(c.green);
    out.push(c.blue);
    out.push(c.alpha);
    assert(out@ =~= old(out)@ + enc_color(*c));
}

/// Appends the record form of a site model.
fn write_website(out: &mut Vec<u8>, w: &Website)
    ensures
        final(out)@ == old(out)@ + enc_website(w@),
        wf_website(w@),
{
    write_str(out, &w.title);
    write_projects(out, &w.portfolio);
    write_str(out, &w.about);
    write_str(out, &w.image);
    write_fonts(out, &w.fonts);
    write_color(out, &w.accent_color);
    assert(out@ =~= old(out)@ + enc_website(w@));
}

/// Serializes the whole application state into one binary record, the unit
/// the session cache persists.
pub fn encode_state(state: &AppState) -> (r: Vec<u8>)
    ensures
        r@ == spec_encode_state(state@),
        wf_state(state@),
{
    let mut out: Vec<u8> = Vec::new();
    write_str(&mut out, &state.source);
    write_website(&mut out, &state.website);
    assert(out@ =~= spec_encode_state(state@));
    out
}

/// Reads a string, mirroring [`dec_str`].
fn read_str(buf: &Vec<u8>, pos: usize) -> (r: Option<(String, usize)>)
    ensures
        match r {
            Some(p) => dec_str(buf@, pos as int) == Some((p.0@, p.1 as int)),
            None => dec_str(buf@, pos as int) is None,
        },
{
    match read_u64(buf, pos) {
        None => None,
        Some((n, p)) => {
            assert(p <= buf@.len());
            let rem = buf.len() - p;
            if n <= rem as u64 {
                let end = p + (n as usize);
                let bytes = bytes_range(buf, p, end);
                match string_from_utf8(bytes) {
                    Some(s) => Some((s, end)),
                    None => None,
                }
            } else {
                None
            }
        },
    }
}

/// Reads an optional string, mirroring [`dec_opt_str`].
fn read_opt_str(buf: &Vec<u8>, pos: usize) -> (r: Option<(Option<String>, usize)>)
    ensures
        match r {
            Some(p) => dec_opt_str(buf@, pos as int) == Some((opt_str_view(p.0), p.1 as int)),
            None => dec_opt_str(buf@, pos as int) is None,
        },
{
    if pos < buf.len() {
        let tag = buf[pos];
        if tag == 0 {
            Some((None, pos + 1))
        } else if tag == 1 {
            match read_str(buf, pos + 1) {
                Some((s, p)) => Some((Some(s), p)),
                None => None,
            }
        } else {
            None
        }
    } else {
        None
    }
}

/// Reads an image, mirroring [`dec_image`].
fn read_image(buf: &Vec<u8>, pos: usize) -> (r: Option<(Image, usize)>)
    ensures
        match r {
            Some(p) => dec_image(buf@, pos as int) == Some((p.0@, p.1 as int)) && p.1 <= buf@.len(),
            None => dec_image(buf@, pos as int) is None,
        },
{
    match read_u32(buf, pos) {
        None => None,
        Some((position, p)) => match read_str(buf, p) {
            Some((path, p2)) => Some((Image { position, path }, p2)),
            None => None,
        },
    }
}

/// Reads an image sequence, mirroring [`dec_images`].
fn read_images(buf: &Vec<u8>, pos: usize) -> (r: Option<(Vec<Image>, usize)>)
    ensures
        match r {
            Some(p) => dec_images(buf@, pos as int) == Some((image_views(p.0@), p.1 as int))
                && p.1 <= buf@.len(),
            None => dec_images(buf@, pos as int) is None,
        },
{
    match read_u64(buf, pos) {
        None => None,
        Some((n, p0)) => {
            let mut acc: Vec<Image> = Vec::new();
            let mut p = p0;
            let mut i: u64 = 0;
            assert(image_views(acc@) + dec_image_list(buf@, p0 as int, n as nat)->Some_0.0
                =~= dec_image_list(buf@, p0 as int, n as nat)->Some_0.0);
            while i < n
                invariant
                    i <= n,
                    p <= buf@.len(),
                    dec_u64(buf@, pos as int) == Some((n, p0 as int)),
                    match dec_image_list(buf@, p as int, (n - i) as nat) {
                        Some(rp) => dec_image_list(buf@, p0 as int, n as nat) == Some(
                            (image_views(acc@) + rp.0, rp.1),
                        ),
                        None => dec_image_list(buf@, p0 as int, n as nat) is None,
                    },
                decreases n - i,
            {
                match read_image(buf, p) {
                    None => {
                        assert(dec_image_list(buf@, p as int, (n - i) as nat) is None);
                        return None;
                    },
                    Some((img, p2)) => {
                        proof {
                            let rest = dec_image_list(buf@, p2 as int, (n - i - 1) as nat);
                            if rest is Some {
                                assert(image_views(acc@.push(img)) =~= image_views(acc@).push(
                                    img@,
                                ));
                                assert(image_views(acc@).push(img@) + rest->Some_0.0
                                    =~= image_views(acc@) + (seq![img@] + rest->Some_0.0));
                            }
                        }
                        acc.push(img);
                        p = p2;
                        i = i + 1;
                    },
                }
            }
            assert(image_views(acc@) + Seq::<ImageView>::empty() =~= image_views(acc@));
            Some((acc, p))
        },
    }
}

/// Reads a project, mirroring [`dec_project`].
fn read_project(buf: &Vec<u8>, pos: usize) -> (r: Option<(Project, usize)>)
    ensures
        match r {
            Some(p) => dec_project(buf@, pos as int) == Some((p.0@, p.1 as int)) && p.1
                <= buf@.len(),
            None => dec_project(buf@, pos as int) is None,
        },
{
    match read_u32(buf, pos) {
        None => None,
        Some((id, p1)) => match read_str(buf, p1) {
            None => None,
            Some((path, p2)) => match read_str(buf, p2) {
                None => None,
                Some((title, p3)) => match read_str(buf, p3) {
                    None => None,
                    Some((description, p4)) => match read_images(buf, p4) {
                        None => None,
                        Some((images, p5)) => Some(
                            (Project { id, path, meta: Meta { title }, description, images }, p5),
                        ),
                    },
                },
            },
        },
    }
}

/// Reads a project sequence, mirroring [`dec_projects`].
fn read_projects(buf: &Vec<u8>, pos: usize) -> (r: Option<(Vec<Project>, usize)>)
    ensures
        match r {
            Some(p) => dec_projects(buf@, pos as int) == Some((project_views(p.0@), p.1 as int))
                && p.1 <= buf@.len(),
            None => dec_projects(buf@, pos as int) is None,
        },
{
    match read_u64(buf, pos) {
        None => None,
        Some((n, p0)) => {
            let mut acc: Vec<Project> = Vec::new();
            let mut p = p0;
            let mut i: u64 = 0;
            assert(project_views(acc@) + dec_project_list(buf@, p0 as int, n as nat)->Some_0.0
                =~= dec_project_list(buf@, p0 as int, n as nat)->Some_0.0);
            while i < n
                invariant
                    i <= n,
                    p <= buf@.len(),
                    dec_u64(buf@, pos as int) == Some((n, p0 as int)),
                    match dec_project_list(buf@, p as int, (n - i) as nat) {
                        Some(rp) => dec_project_list(buf@, p0 as int, n as nat) == Some(
                            (project_views(acc@) + rp.0, rp.1),
                        ),
                        None => dec_project_list(buf@, p0 as int, n as nat) is None,
                    },
                decreases n - i,
            {
                match read_project(buf, p) {
                    None => {
                        assert(dec_project_list(buf@, p as int, (n - i) as nat) is None);
                        return None;
                    },
                    Some((proj, p2)) => {
                        proof {
                            let rest = dec_project_list(buf@, p2 as int, (n - i - 1) as nat);
                            if rest is Some {
                                assert(project_views(acc@.push(proj)) =~= project_views(
                                    acc@,
                                ).push(proj@));
                                assert(project_views(acc@).push(proj@) + rest->Some_0.0
                                    =~= project_views(acc@) + (seq![proj@] + rest->Some_0.0));
                            }
                        }
                        acc.push(proj);
                        p = p2;
                        i = i + 1;
                    },
                }
            }
            assert(project_views(acc@) + Seq::<ProjectView>::empty() =~= project_views(acc@));
            Some((acc, p))
        },
    }
}

/// Reads a font set, mirroring [`dec_fonts`].
fn read_fonts(buf: &Vec<u8>, pos: usize) -> (r: Option<(Fonts, usize)>)
    ensures
        match r {
            Some(p) => dec_fonts(buf@, pos as int) == Some((p.0@, p.1 as int)),
            None => dec_fonts(buf@, pos as int) is None,
        },
{
    match read_opt_str(buf, pos) {
        None => None,
        Some((bold, p)) => match read_opt_str(buf, p) {
            None => None,
            Some((normal, p2)) => Some((Fonts { bold, normal }, p2)),
        },
    }
}

/// Reads a color, mirroring [`dec_color`].
fn read_color(buf: &Vec<u8>, pos: usize) -> (r: Option<(Color, usize)>)
    ensures
        match r {
            Some(p) => dec_color(buf@, pos as int) == Some((p.0, p.1 as int)),
            None => dec_color(buf@, pos as int) is None,
        },
{
    if pos <= buf.len() && buf.len() - pos >= 4 {
        Some(
            (
                Color {
                    red: buf[pos],
                    green: buf[pos + 1],
                    blue: buf[pos + 2],
                    alpha: buf[pos + 3],
                },
                pos + 4,
            ),
        )
    } else {
        None
    }
}

/// Reads a site model, mirroring [`dec_website`].
fn read_website(buf: &Vec<u8>, pos: usize) -> (r: Option<(Website, usize)>)
    ensures
        match r {
            Some(p) => dec_website(buf@, pos as int) == Some((p.0@, p.1 as int)),
            None => dec_website(buf@, pos as int) is None,
        },
{
    match read_str(buf, pos) {
        None => None,
        Some((title, p1)) => match read_projects(buf, p1) {
            None => None,
            Some((portfolio, p2)) => match read_str(buf, p2) {
                None => None,
                Some((about, p3)) => match read_str(buf, p3) {
                    None => None,
                    Some((image, p4)) => match read_fonts(buf, p4) {
                        None => None,
                        Some((fonts, p5)) => match read_color(buf, p5) {
                            None => None,
                            Some((accent_color, p6)) => Some(
                                (
                                    Website {
                                        title,
                                        portfolio,
                                        about,
                                        image,
                                        fonts,
                                        accent_color,
                                    },
                                    p6,
                                ),
                            ),
                        },
                    },
                },
            },
        },
    }
}

/// Reads a whole cache record back into an application state. Any byte
/// sequence that is not exactly one encoded state is rejected; nothing here
/// can fail in any other way.
pub fn decode_state(buf: &Vec<u8>) -> (r: Option<AppState>)
    ensures
        match r {
            Some(s) => spec_decode_state(buf@) == Some(s@),
            None => spec_decode_state(buf@) is None,
        },
{
    match read_str(buf, 0) {
        None => None,
        Some((source, p1)) => match read_website(buf, p1) {
            None => None,
            Some((website, p2)) => {
                if p2 == buf.len() {
                    Some(AppState { source, website })
                } else {
                    None
                }
            },
        },
    }
}

/// The state a session starts from, given whatever the cache held: the
/// decoded record when it is intact, the default state when the cache is
/// absent or corrupt. Loading never fails.
pub fn state_from_cache(bytes: Option<Vec<u8>>) -> (r: AppState)
    ensures
        match bytes {
            Some(b) => match spec_decode_state(b@) {
                Some(v) => r@ == v,
                None => r@ == AppState::default_view(),
            },
            None => r@ == AppState::default_view(),
        },
{
    match bytes {
        Some(b) => match decode_state(&b) {
            Some(s) => s,
            None => AppState::default(),
        },
        None => AppState::default(),
    }
}

/// Reassembling eight small values and taking them apart again is exact.
proof fn lemma_u64_disassemble(x0: u64, x1: u64, x2: u64, x3: u64, x4: u64, x5: u64, x6: u64, x7: u64)
    requires
        x0 < 256,
        x1 < 256,
        x2 < 256,
        x3 < 256,
        x4 < 256,
        x5 < 256,
        x6 < 256,
        x7 < 256,
    ensures
        ({
            let v = x0 | (x1 << 8) | (x2 << 16) | (x3 << 24) | (x4 << 32) | (x5 << 40) | (x6
                << 48) | (x7 << 56);
            v & 0xff == x0 && (v >> 8) & 0xff == x1 && (v >> 16) & 0xff == x2 && (v >> 24) & 0xff
                == x3 && (v >> 32) & 0xff == x4 && (v >> 40) & 0xff == x5 && (v >> 48) & 0xff == x6
                && (v >> 56) & 0xff == x7
        }),
{
    assert({
        let v = x0 | (x1 << 8) | (x2 << 16) | (x3 << 24) | (x4 << 32) | (x5 << 40) | (x6 << 48) | (
        x7 << 56);
        v & 0xff == x0 && (v >> 8) & 0xff == x1 && (v >> 16) & 0xff == x2 && (v >> 24) & 0xff == x3
            && (v >> 32) & 0xff == x4 && (v >> 40) & 0xff == x5 && (v >> 48) & 0xff == x6 && (v
            >> 56) & 0xff == x7
    }) by (bit_vector)
        requires
            x0 < 256 && x1 < 256 && x2 < 256 && x3 < 256 && x4 < 256 && x5 < 256 && x6 < 256 && x7
                < 256,
    ;
}

/// Reassembling four small values and taking them apart again is exact.
proof fn lemma_u32_disassemble(x0: u32, x1: u32, x2: u32, x3: u32)
    requires
        x0 < 256,
        x1 < 256,
        x2 < 256,
        x3 < 256,
    ensures
        ({
            let v = x0 | (x1 << 8) | (x2 << 16) | (x3 << 24);
            v & 0xff == x0 && (v >> 8) & 0xff == x1 && (v >> 16) & 0xff == x2 && (v >> 24) & 0xff
                == x3
        }),
{
    assert({
        let v = x0 | (x1 << 8) | (x2 << 16) | (x3 << 24);
        v & 0xff == x0 && (v >> 8) & 0xff == x1 && (v >> 16) & 0xff == x2 && (v >> 24) & 0xff == x3
    }) by (bit_vector)
        requires
            x0 < 256 && x1 < 256 && x2 < 256 && x3 < 256,
    ;
}

/// Whatever `dec_u64` reads was laid down by `enc_u64`.
proof fn lemma_dec_sound_u64(b: Seq<u8>, pos: int)
    requires
        dec_u64(b, pos) is Some,
    ensures
        ({
            let (v, end) = dec_u64(b, pos)->Some_0;
            end == pos + 8 && b.subrange(pos, end) == enc_u64(v)
        }),
{
    let (v, end) = dec_u64(b, pos)->Some_0;
    lemma_u64_disassemble(
        b[pos] as u64,
        b[pos + 1] as u64,
        b[pos + 2] as u64,
        b[pos + 3] as u64,
        b[pos + 4] as u64,
        b[pos + 5] as u64,
        b[pos + 6] as u64,
        b[pos + 7] as u64,
    );
    assert(b.subrange(pos, end) =~= enc_u64(v));
}

/// Whatever `dec_u32` reads was laid down by `enc_u32`.
proof fn lemma_dec_sound_u32(b: Seq<u8>, pos: int)
    requires
        dec_u32(b, pos) is Some,
    ensures
        ({
            let (v, end) = dec_u32(b, pos)->Some_0;
            end == pos + 4 && b.subrange(pos, end) == enc_u32(v)
        }),
{
    let (v, end) = dec_u32(b, pos)->Some_0;
    lemma_u32_disassemble(b[pos] as u32, b[pos + 1] as u32, b[pos + 2] as u32, b[pos + 3] as u32);
    assert(b.subrange(pos, end) =~= enc_u32(v));
}

/// Whatever `dec_str` reads was laid down by `enc_str`.
proof fn lemma_dec_sound_str(b: Seq<u8>, pos: int)
    requires
        dec_str(b, pos) is Some,
    ensures
        ({
            let (s, end) = dec_str(b, pos)->Some_0;
            0 <= pos <= end <= b.len() && b.subrange(pos, end) == enc_str(s) && wf_str(s)
        }),
{
    broadcast use vstd::utf8::decode_utf8_encode_utf8;

    let (s, end) = dec_str(b, pos)->Some_0;
    let (n, p) = dec_u64(b, pos)->Some_0;
    lemma_dec_sound_u64(b, pos);
    let w = b.subrange(p, p + n);
    assert(encode_utf8(s) == w);
    assert(b.subrange(pos, end) =~= b.subrange(pos, p) + w);
}

/// Whatever `dec_opt_str` reads was laid down by `enc_opt_str`.
proof fn lemma_dec_sound_opt_str(b: Seq<u8>, pos: int)
    requires
        dec_opt_str(b, pos) is Some,
    ensures
        ({
            let (o, end) = dec_opt_str(b, pos)->Some_0;
            0 <= pos <= end <= b.len() && b.subrange(pos, end) == enc_opt_str(o) && wf_opt_str(o)
        }),
{
    let (o, end) = dec_opt_str(b, pos)->Some_0;
    if b[pos] == 0 {
        assert(b.subrange(pos, end) =~= seq![0u8]);
    } else {
        lemma_dec_sound_str(b, pos + 1);
        let (s, e2) = dec_str(b, pos + 1)->Some_0;
        assert(b.subrange(pos, end) =~= seq![1u8] + b.subrange(pos + 1, e2));
    }
}

/// Whatever `dec_image` reads was laid down by `enc_image`.
proof fn lemma_dec_sound_image(b: Seq<u8>, pos: int)
    requires
        dec_image(b, pos) is Some,
    ensures
        ({
            let (i, end) = dec_image(b, pos)->Some_0;
            0 <= pos <= end <= b.len() && b.subrange(pos, end) == enc_image(i) && wf_image(i)
        }),
{
    let (i, end) = dec_image(b, pos)->Some_0;
    lemma_dec_sound_u32(b, pos);
    lemma_dec_sound_str(b, pos + 4);
    let (path, e2) = dec_str(b, pos + 4)->Some_0;
    assert(b.subrange(pos, end) =~= b.subrange(pos, pos + 4) + b.subrange(pos + 4, e2));
}

/// Whatever `dec_image_list` reads was laid down by `enc_image_list`.
proof fn lemma_dec_sound_image_list(b: Seq<u8>, pos: int, n: nat)
    requires
        dec_image_list(b, pos, n) is Some,
        0 <= pos <= b.len(),
    ensures
        ({
            let (s, end) = dec_image_list(b, pos, n)->Some_0;
            s.len() == n && pos <= end <= b.len() && b.subrange(pos, end) == enc_image_list(s)
                && forall|k: int| 0 <= k < s.len() ==> wf_image(#[trigger] s[k])
        }),
    decreases n,
{
    let (s, end) = dec_image_list(b, pos, n)->Some_0;
    if n == 0 {
        assert(b.subrange(pos, end) =~= enc_image_list(s));
    } else {
        let (x, p) = dec_image(b, pos)->Some_0;
        lemma_dec_sound_image(b, pos);
        lemma_dec_sound_image_list(b, p, (n - 1) as nat);
        let (rest, e2) = dec_image_list(b, p, (n - 1) as nat)->Some_0;
        assert(s == seq![x] + rest);
        assert(s[0] == x);
        assert(s.drop_first() =~= rest);
        assert(b.subrange(pos, end) =~= b.subrange(pos, p) + b.subrange(p, e2));
        assert(enc_image_list(s) == enc_image(x) + enc_image_list(rest));
        assert forall|k: int| 0 <= k < s.len() implies wf_image(#[trigger] s[k]) by {
            if k > 0 {
                assert(s[k] == rest[k - 1]);
            }
        }
    }
}

/// Whatever `dec_images` reads was laid down by `enc_images`.
proof fn lemma_dec_sound_images(b: Seq<u8>, pos: int)
    requires
        dec_images(b, pos) is Some,
    ensures
        ({
            let (s, end) = dec_images(b, pos)->Some_0;
            0 <= pos <= end <= b.len() && b.subrange(pos, end) == enc_images(s) && wf_images(s)
        }),
{
    let (n, p) = dec_u64(b, pos)->Some_0;
    lemma_dec_sound_u64(b, pos);
    lemma_dec_sound_image_list(b, p, n as nat);
    let (s, end) = dec_image_list(b, p, n as nat)->Some_0;
    assert(s.len() as u64 == n);
    assert(b.subrange(pos, end) =~= b.subrange(pos, p) + b.subrange(p, end));
}

/// Whatever `dec_project` reads was laid down by `enc_project`.
#[verifier::rlimit(60)]
proof fn lemma_dec_sound_project(b: Seq<u8>, pos: int)
    requires
        dec_project(b, pos) is Some,
    ensures
        ({
            let (prj, end) = dec_project(b, pos)->Some_0;
            0 <= pos <= end <= b.len() && b.subrange(pos, end) == enc_project(prj) && wf_project(
                prj,
            )
        }),
{
    let (prj, end) = dec_project(b, pos)->Some_0;
    let (id, p1) = dec_u32(b, pos)->Some_0;
    let (path, p2) = dec_str(b, p1)->Some_0;
    let (title, p3) = dec_str(b, p2)->Some_0;
    let (description, p4) = dec_str(b, p3)->Some_0;
    let (images, p5) = dec_images(b, p4)->Some_0;
    lemma_dec_sound_u32(b, pos);
    lemma_dec_sound_str(b, p1);
    lemma_dec_sound_str(b, p2);
    lemma_dec_sound_str(b, p3);
    lemma_dec_sound_images(b, p4);
    assert(b.subrange(pos, p2) =~= b.subrange(pos, p1) + b.subrange(p1, p2));
    assert(b.subrange(pos, p3) =~= b.subrange(pos, p2) + b.subrange(p2, p3));
    assert(b.subrange(pos, p4) =~= b.subrange(pos, p3) + b.subrange(p3, p4));
    assert(b.subrange(pos, p5) =~= b.subrange(pos, p4) + b.subrange(p4, p5));
}

/// Whatever `dec_project_list` reads was laid down by `enc_project_list`.
#[verifier::rlimit(100)]
proof fn lemma_dec_sound_project_list(b: Seq<u8>, pos: int, n: nat)
    requires
        dec_project_list(b, pos, n) is Some,
        0 <= pos <= b.len(),
    ensures
        ({
            let (s, end) = dec_project_list(b, pos, n)->Some_0;
            s.len() == n && pos <= end <= b.len() && b.subrange(pos, end) == enc_project_list(s)
                && forall|k: int| 0 <= k < s.len() ==> wf_project(#[trigger] s[k])
        }),
    decreases n,
{
    let (s, end) = dec_project_list(b, pos, n)->Some_0;
    if n == 0 {
        assert(b.subrange(pos, end) =~= enc_project_list(s));
    } else {
        let (x, p) = dec_project(b, pos)->Some_0;
        lemma_dec_sound_project(b, pos);
        lemma_dec_sound_project_list(b, p, (n - 1) as nat);
        let (rest, e2) = dec_project_list(b, p, (n - 1) as nat)->Some_0;
        assert(s == seq![x] + rest);
        assert(s[0] == x);
        assert(s.drop_first() =~= rest);
        assert(b.subrange(pos, end) =~= b.subrange(pos, p) + b.subrange(p, e2));
        assert(enc_project_list(s) == enc_project(x) + enc_project_list(rest));
        assert forall|k: int| 0 <= k < s.len() implies wf_project(#[trigger] s[k]) by {
            if k > 0 {
                assert(s[k] == rest[k - 1]);
            }
        }
    }
}

/// Whatever `dec_projects` reads was laid down by `enc_projects`.
proof fn lemma_dec_sound_projects(b: Seq<u8>, pos: int)
    requires
        dec_projects(b, pos) is Some,
    ensures
        ({
            let (s, end) = dec_projects(b, pos)->Some_0;
            0 <= pos <= end <= b.len() && b.subrange(pos, end) == enc_projects(s) && wf_projects(s)
        }),
{
    let (n, p) = dec_u64(b, pos)->Some_0;
    lemma_dec_sound_u64(b, pos);
    lemma_dec_sound_project_list(b, p, n as nat);
    let (s, end) = dec_project_list(b, p, n as nat)->Some_0;
    assert(s.len() as u64 == n);
    assert(b.subrange(pos, end) =~= b.subrange(pos, p) + b.subrange(p, end));
}

/// Whatever `dec_fonts` reads was laid down by `enc_fonts`.
proof fn lemma_dec_sound_fonts(b: Seq<u8>, pos: int)
    requires
        dec_fonts(b, pos) is Some,
    ensures
        ({
            let (f, end) = dec_fonts(b, pos)->Some_0;
            0 <= pos <= end <= b.len() && b.subrange(pos, end) == enc_fonts(f) && wf_fonts(f)
        }),
{
    let (f, end) = dec_fonts(b, pos)->Some_0;
    let (bold, p) = dec_opt_str(b, pos)->Some_0;
    lemma_dec_sound_opt_str(b, pos);
    lemma_dec_sound_opt_str(b, p);
    let (normal, e2) = dec_opt_str(b, p)->Some_0;
    assert(b.subrange(pos, end) =~= b.subrange(pos, p) + b.subrange(p, e2));
}

/// Whatever `dec_color` reads was laid down by `enc_color`.
proof fn lemma_dec_sound_color(b: Seq<u8>, pos: int)
    requires
        dec_color(b, pos) is Some,
    ensures
        ({
            let (c, end) = dec_color(b, pos)->Some_0;
            0 <= pos <= end <= b.len() && b.subrange(pos, end) == enc_color(c)
        }),
{
    let (c, end) = dec_color(b, pos)->Some_0;
    assert(b.subrange(pos, end) =~= enc_color(c));
}

/// A window split into six component encodings is the encoding of the record.
proof fn lemma_website_window(b: Seq<u8>, pos: int, p1: int, p2: int, p3: int, p4: int, p5: int, p6: int, w: WebsiteView)
    requires
        0 <= pos <= p1 <= p2 <= p3 <= p4 <= p5 <= p6 <= b.len(),
        b.subrange(pos, p1) == enc_str(w.title),
        b.subrange(p1, p2) == enc_projects(w.portfolio),
        b.subrange(p2, p3) == enc_str(w.about),
        b.subrange(p3, p4) == enc_str(w.image),
        b.subrange(p4, p5) == enc_fonts(w.fonts),
        b.subrange(p5, p6) == enc_color(w.accent_color),
    ensures
        b.subrange(pos, p6) == enc_website(w),
{
    assert(b.subrange(pos, p2) =~= b.subrange(pos, p1) + b.subrange(p1, p2));
    assert(b.subrange(pos, p3) =~= b.subrange(pos, p2) + b.subrange(p2, p3));
    assert(b.subrange(pos, p4) =~= b.subrange(pos, p3) + b.subrange(p3, p4));
    assert(b.subrange(pos, p5) =~= b.subrange(pos, p4) + b.subrange(p4, p5));
    assert(b.subrange(pos, p6) =~= b.subrange(pos, p5) + b.subrange(p5, p6));
}

/// Whatever `dec_website` reads was laid down by `enc_website`.
#[verifier::rlimit(100)]
proof fn lemma_dec_sound_website(b: Seq<u8>, pos: int)
    requires
        dec_website(b, pos) is Some,
    ensures
        ({
            let (w, end) = dec_website(b, pos)->Some_0;
            0 <= pos <= end <= b.len() && b.subrange(pos, end) == enc_website(w) && wf_website(w)
        }),
{
    let (w, end) = dec_website(b, pos)->Some_0;
    let (title, p1) = dec_str(b, pos)->Some_0;
    let (portfolio, p2) = dec_projects(b, p1)->Some_0;
    let (about, p3) = dec_str(b, p2)->Some_0;
    let (image, p4) = dec_str(b, p3)->Some_0;
    let (fonts, p5) = dec_fonts(b, p4)->Some_0;
    let (accent, p6) = dec_color(b, p5)->Some_0;
    lemma_dec_sound_str(b, pos);
    lemma_dec_sound_projects(b, p1);
    lemma_dec_sound_str(b, p2);
    lemma_dec_sound_str(b, p3);
    lemma_dec_sound_fonts(b, p4);
    lemma_dec_sound_color(b, p5);
    lemma_website_window(b, pos, p1, p2, p3, p4, p5, p6, w);
}

/// Cache canonicity: the only byte sequences that load at all are exact
/// encodings, so any truncated or corrupted record reads back as absent, and
/// a record that does load is the stored state itself.
/// A window split into the two component encodings is the encoded state.
proof fn lemma_state_window(b: Seq<u8>, pos: int, p1: int, p2: int, s: AppStateView)
    requires
        0 <= pos <= p1 <= p2 <= b.len(),
        b.subrange(pos, p1) == enc_str(s.source),
        b.subrange(p1, p2) == enc_website(s.website),
    ensures
        b.subrange(pos, p2) == spec_encode_state(s),
{
    assert(b.subrange(pos, p2) =~= b.subrange(pos, p1) + b.subrange(p1, p2));
}

/// Cache canonicity: the only byte sequences that load at all are exact
/// encodings, so any truncated or corrupted record reads back as absent, and
/// a record that does load is the stored state itself.
#[verifier::rlimit(100)]
pub proof fn lemma_cache_canonical(b: Seq<u8>, v: AppStateView)
    requires
        spec_decode_state(b) == Some(v),
    ensures
        b == spec_encode_state(v),
        wf_state(v),
{
    let (source, p1) = dec_str(b, 0)->Some_0;
    let (website, p2) = dec_website(b, p1)->Some_0;
    lemma_dec_sound_str(b, 0);
    lemma_dec_sound_website(b, p1);
    lemma_state_window(b, 0, p1, p2, v);
    assert(b.subrange(0, b.len() as int) =~= b);
}

} // verus!
