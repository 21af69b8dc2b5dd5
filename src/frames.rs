//! Byte frames of the display accelerator's bus protocol. Each command is a
//! sequence of frames, and each frame is written to the bus on its own.
use vstd::prelude::*;
use vstd::slice::{slice_subrange, slice_to_vec};

verus! {

/// Command byte that selects a register to read.
pub const READ_REGISTER: u8 = 0x00;

/// Command byte that announces a register write.
pub const WRITE_REGISTER: u8 = 0x80;

/// Command byte that announces a sprite upload.
pub const UPLOAD_SPRITE: u8 = 0x81;

/// Command byte that announces a sprite deletion.
pub const DELETE_SPRITE: u8 = 0x82;

/// The largest number of bytes that one bus write may carry.
pub const MAX_WRITE: usize = 255;

/// The four bytes of `v`, least significant first.
pub open spec fn le_bytes(v: u32) -> Seq<u8> {
    seq![
        (v % 0x100) as u8,
        (v / 0x100 % 0x100) as u8,
        (v / 0x1_0000 % 0x100) as u8,
        (v / 0x100_0000) as u8,
    ]
}

/// The number whose bytes, least significant first, are `b[0..4]`.
pub open spec fn le_value(b: Seq<u8>) -> int {
    b[0] + 0x100 * b[1] + 0x1_0000 * b[2] + 0x100_0000 * b[3]
}

/// The contents of a list of frames.
pub open spec fn frame_views(frames: Seq<Vec<u8>>) -> Seq<Seq<u8>> {
    frames.map_values(|f: Vec<u8>| f@)
}

/// `b` cut into consecutive pieces of `n` bytes, the last one possibly
/// shorter; no piece for an empty `b`.
pub open spec fn chunks(b: Seq<u8>, n: nat) -> Seq<Seq<u8>>
    decreases b.len(),
{
    if b.len() == 0 || n == 0 {
        seq![]
    } else if b.len() <= n {
        seq![b]
    } else {
        seq![b.take(n as int)] + chunks(b.skip(n as int), n)
    }
}

/// Bytes of bitmap that one glyph of the given size takes.
pub open spec fn glyph_len(glyph_width: u8, glyph_height: u8) -> nat {
    (glyph_width * glyph_height / 8) as nat
}

/// The frames that upload a sprite: the command, a header with the sprite
/// id, glyph size and glyph count (kept to its low byte), then the bitmap in
/// pieces that each fit one bus write.
pub open spec fn upload_frames(id: u8, glyph_width: u8, glyph_height: u8, bitmap: Seq<u8>) -> Seq<
    Seq<u8>,
> {
    seq![
        seq![UPLOAD_SPRITE, id],
        seq![id, glyph_width, glyph_height, (bitmap.len() / glyph_len(glyph_width, glyph_height)) as u8],
    ] + chunks(bitmap, MAX_WRITE as nat)
}

/// The frame that selects register `reg` for the four-byte read that
/// follows it.
pub fn read_register_frame(reg: u8) -> (r: Vec<u8>)
    ensures
        r@ == seq![READ_REGISTER, reg],
{
    vec![READ_REGISTER, reg]
}

/// The value of a register from the four bytes that a read returned, least
/// significant first.
pub fn register_value(bytes: [u8; 4]) -> (r: u32)
    ensures
        r as int == le_value(bytes@),
{
    bytes[0] as u32 + 0x100 * (bytes[1] as u32) + 0x1_0000 * (bytes[2] as u32) + 0x100_0000 * (
    bytes[3] as u32)
}

/// The frames that write `val` to register `reg`: the command, then the
/// value's four bytes, least significant first.
pub fn write_register_frames(reg: u8, val: u32) -> (r: Vec<Vec<u8>>)
    ensures
        frame_views(r@) == seq![seq![WRITE_REGISTER, reg], le_bytes(val)],
{
    let value = vec![
        (val % 0x100) as u8,
        (val / 0x100 % 0x100) as u8,
        (val / 0x1_0000 % 0x100) as u8,
        (val / 0x100_0000) as u8,
    ];
    let r = vec![vec![WRITE_REGISTER, reg], value];
    assert(frame_views(r@) =~= seq![seq![WRITE_REGISTER, reg], le_bytes(val)]);
    r
}

/// The frames that delete sprite `id`: the command, then the id with a
/// confirmation tag.
pub fn delete_sprite_frames(id: u8) -> (r: Vec<Vec<u8>>)
    ensures
        frame_views(r@) == seq![seq![DELETE_SPRITE, id], seq![id, 'd' as u8, 'e' as u8, 'l' as u8]],
{
    let r = vec![vec![DELETE_SPRITE, id], vec![id, 'd' as u8, 'e' as u8, 'l' as u8]];
    assert(frame_views(r@) =~= seq![
        seq![DELETE_SPRITE, id],
        seq![id, 'd' as u8, 'e' as u8, 'l' as u8],
    ]);
    r
}

/// The frames that upload sprite `id`, made of glyphs of the given size, with
/// the given bitmap; `None` when a glyph of that size takes less than one
/// byte, so that no glyph count exists.
pub fn upload_sprite_frames(id: u8, glyph_width: u8, glyph_height: u8, bitmap: &[u8]) -> (r:
    Option<Vec<Vec<u8>>>)
    ensures
        r.is_none() <==> glyph_len(glyph_width, glyph_height) == 0,
        r matches Some(frames) ==> frame_views(frames@) == upload_frames(
            id,
            glyph_width,
            glyph_height,
            bitmap@,
        ),
{
    assert(glyph_width as usize * glyph_height as usize <= 255 * 255) by (nonlinear_arith)
        requires
            glyph_width <= 255,
            glyph_height <= 255,
    ;
    let glyph_bytes = glyph_width as usize * glyph_height as usize / 8;
    if glyph_bytes == 0 {
        return None;
    }
    let len = bitmap.len();
    // The count goes on the wire as one byte: only its low byte is kept.
    let glyphs: u8 = #[verifier::truncate] ((len / glyph_bytes) as u8);
    let mut frames = vec![vec![UPLOAD_SPRITE, id], vec![id, glyph_width, glyph_height, glyphs]];
    let ghost all = upload_frames(id, glyph_width, glyph_height, bitmap@);
    assert(bitmap@.skip(0) =~= bitmap@);
    assert(frame_views(frames@) + chunks(bitmap@, MAX_WRITE as nat) =~= all);
    let mut pos: usize = 0;
    while pos < len
        invariant
            len == bitmap@.len(),
            pos <= len,
            all == upload_frames(id, glyph_width, glyph_height, bitmap@),
            frame_views(frames@) + chunks(bitmap@.skip(pos as int), MAX_WRITE as nat) == all,
        decreases len - pos,
    {
        let end = if len - pos > MAX_WRITE {
            pos + MAX_WRITE
        } else {
            len
        };
        let piece = slice_to_vec(slice_subrange(bitmap, pos, end));
        let ghost before = frames@;
        frames.push(piece);
        proof {
            let rest = bitmap@.skip(pos as int);
            assert(frame_views(frames@) =~= frame_views(before).push(piece@));
            if len - pos > MAX_WRITE {
                assert(rest.take(MAX_WRITE as int) =~= piece@);
                assert(rest.skip(MAX_WRITE as int) =~= bitmap@.skip(end as int));
                assert(frame_views(frames@) + chunks(bitmap@.skip(end as int), MAX_WRITE as nat)
                    =~= frame_views(before) + chunks(rest, MAX_WRITE as nat));
            } else {
                assert(rest =~= piece@);
                assert(bitmap@.skip(end as int).len() == 0);
                assert(frame_views(frames@) + chunks(bitmap@.skip(end as int), MAX_WRITE as nat)
                    =~= frame_views(before) + chunks(rest, MAX_WRITE as nat));
            }
        }
        pos = end;
    }
    assert(frame_views(frames@) =~= all);
    Some(frames)
}

/// Relies on klaptik's `Point::new`, `RenderRequest::new` and
/// `RenderRequest::as_bytes`: a render request goes on the wire as its
/// origin's x and y, the sprite id and the glyph index, in that order.
#[verifier::external_body]
fn render_request_bytes(x: u8, y: u8, sprite: u8, glyph: u8) -> (r: [u8; 4])
    ensures
        r@ == seq![x, y, sprite, glyph],
{
    klaptik::RenderRequest::new(klaptik::Point::new(x, y), sprite, glyph).as_bytes()
}

/// The frame that asks the device to draw glyph `glyph` of sprite `sprite`
/// with its origin at `(x, y)`.
pub fn render_request_frame(x: u8, y: u8, sprite: u8, glyph: u8) -> (r: Vec<u8>)
    ensures
        r@ == seq![x, y, sprite, glyph],
{
    let b = render_request_bytes(x, y, sprite, glyph);
    let r = vec![b[0], b[1], b[2], b[3]];
    assert(r@ =~= b@);
    r
}

/// A value written to a register reads back unchanged: its four bytes, least
/// significant first, make up the value again.
pub proof fn lemma_register_round_trip(v: u32)
    ensures
        le_bytes(v).len() == 4,
        le_value(le_bytes(v)) == v,
{
}

/// Cutting a byte sequence into pieces of at most `n` bytes loses and
/// reorders nothing: the pieces, joined in order, give the sequence back, and
/// none is empty or longer than `n`.
pub proof fn lemma_chunks_reassemble(b: Seq<u8>, n: nat)
    requires
        n > 0,
    ensures
        chunks(b, n).flatten() == b,
        forall|i: int| 0 <= i < chunks(b, n).len() ==> 0 < #[trigger] chunks(b, n)[i].len() <= n,
    decreases b.len(),
{
    if b.len() == 0 {
        assert(chunks(b, n).flatten() =~= b);
    } else if b.len() <= n {
        seq![b].lemma_flatten_one_element();
    } else {
        let rest = chunks(b.skip(n as int), n);
        lemma_chunks_reassemble(b.skip(n as int), n);
        let all = seq![b.take(n as int)] + rest;
        assert(all.first() == b.take(n as int));
        assert(all.drop_first() =~= rest);
        assert(all.flatten() =~= b);
        assert forall|i: int| 0 <= i < all.len() implies 0 < #[trigger] all[i].len() <= n by {
            if i > 0 {
                assert(all[i] == rest[i - 1]);
            }
        }
    }
}

/// An upload carries the whole bitmap: the frames after the command and the
/// header, joined in order, are the bitmap, and each fits one bus write.
pub proof fn lemma_upload_payload(id: u8, glyph_width: u8, glyph_height: u8, bitmap: Seq<u8>)
    ensures
        upload_frames(id, glyph_width, glyph_height, bitmap).skip(2).flatten() == bitmap,
        forall|i: int|
            2 <= i < upload_frames(id, glyph_width, glyph_height, bitmap).len() ==> 0 < (
            #[trigger] upload_frames(id, glyph_width, glyph_height, bitmap)[i]).len() <= MAX_WRITE,
{
    let all = upload_frames(id, glyph_width, glyph_height, bitmap);
    let pieces = chunks(bitmap, MAX_WRITE as nat);
    lemma_chunks_reassemble(bitmap, MAX_WRITE as nat);
    assert(all.skip(2) =~= pieces);
    assert forall|i: int| 2 <= i < all.len() implies 0 < (#[trigger] all[i]).len() <= MAX_WRITE by {
        assert(all[i] == pieces[i - 2]);
    }
}

} // verus!
