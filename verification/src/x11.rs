//! The X11 wire protocol as a tiny client speaks it (little-endian byte order): the
//! connection setup, the fields it reads from the server's answer, the requests that create,
//! name and map a window, and the events that end the session.

use vstd::prelude::*;
use crate::bytes::extend;

verus! {

/// The two bytes of `v`, least significant first.
pub open spec fn le16(v: u16) -> Seq<u8> {
    seq![v as u8, (v >> 8u16) as u8]
}

/// The four bytes of `v`, least significant first.
pub open spec fn le32(v: u32) -> Seq<u8> {
    seq![v as u8, (v >> 8u32) as u8, (v >> 16u32) as u8, (v >> 24u32) as u8]
}

/// The little-endian 16-bit number at `off`.
pub open spec fn u16_at(buf: Seq<u8>, off: int) -> u16 {
    (buf[off] as u16) | ((buf[off + 1] as u16) << 8u16)
}

/// The little-endian 32-bit number at `off`.
pub open spec fn u32_at(buf: Seq<u8>, off: int) -> u32 {
    (buf[off] as u32) | ((buf[off + 1] as u32) << 8u32) | ((buf[off + 2] as u32) << 16u32) | ((buf[off + 3] as u32)
        << 24u32)
}

/// `n` rounded up to a multiple of four.
pub open spec fn pad4_spec(n: nat) -> nat {
    ((n + 3) / 4 * 4) as nat
}

/// `n` zero bytes.
pub open spec fn zeros(n: nat) -> Seq<u8> {
    Seq::new(n, |i: int| 0u8)
}

/// Appends the two bytes of `v`, least significant first.
pub fn put_u16_le(out: &mut Vec<u8>, v: u16)
    ensures
        final(out)@ == old(out)@ + le16(v),
{
    let ghost o = out@;
    out.push(v as u8);
    out.push((v >> 8u16) as u8);
    assert(out@ =~= o + le16(v));
}

/// Appends the four bytes of `v`, least significant first.
pub fn put_u32_le(out: &mut Vec<u8>, v: u32)
    ensures
        final(out)@ == old(out)@ + le32(v),
{
    let ghost o = out@;
    out.push(v as u8);
    out.push((v >> 8u32) as u8);
    out.push((v >> 16u32) as u8);
    out.push((v >> 24u32) as u8);
    assert(out@ =~= o + le32(v));
}

/// The little-endian 16-bit number at `off`.
pub fn get_u16_le(buf: &[u8], off: usize) -> (res: u16)
    requires
        off + 2 <= buf@.len(),
    ensures
        res == u16_at(buf@, off as int),
{
    (buf[off] as u16) | ((buf[off + 1] as u16) << 8u16)
}

/// The little-endian 32-bit number at `off`.
pub fn get_u32_le(buf: &[u8], off: usize) -> (res: u32)
    requires
        off + 4 <= buf@.len(),
    ensures
        res == u32_at(buf@, off as int),
{
    (buf[off] as u32) | ((buf[off + 1] as u32) << 8u32) | ((buf[off + 2] as u32) << 16u32) | ((buf[off + 3] as u32)
        << 24u32)
}

/// `n` rounded up to a multiple of four.
pub fn pad4(n: usize) -> (res: usize)
    requires
        n <= usize::MAX - 3,
    ensures
        res == pad4_spec(n as nat),
        n <= res <= n + 3,
{
    (n + 3) / 4 * 4
}

/// Appends `n` zero bytes.
fn put_zeros(out: &mut Vec<u8>, n: usize)
    ensures
        final(out)@ == old(out)@ + zeros(n as nat),
{
    let ghost o = out@;
    let mut i: usize = 0;
    while i < n
        invariant
            i <= n,
            out@ == o + zeros(i as nat),
        decreases n - i,
    {
        out.push(0u8);
        assert(out@ =~= o + zeros((i + 1) as nat));
        i += 1;
    }
}

/// The connection setup: little-endian, protocol 11.0, no authorization.
pub open spec fn setup_request_spec() -> Seq<u8> {
    seq![108u8, 0u8] + le16(11) + le16(0) + zeros(6)
}

/// The connection setup request.
pub fn setup_request() -> (res: Vec<u8>)
    ensures
        res@ == setup_request_spec(),
{
    let mut out: Vec<u8> = Vec::new();
    out.push(108u8);
    out.push(0u8);
    put_u16_le(&mut out, 11);
    put_u16_le(&mut out, 0);
    put_zeros(&mut out, 6);
    out
}

/// From the first eight bytes of the server's answer: how many more bytes it sends, when it
/// accepted the connection; `None` when it refused.
pub fn setup_extra_len(header: &[u8]) -> (res: Option<usize>)
    requires
        header@.len() >= 8,
    ensures
        res == if header@[0] == 1 {
            Some((u16_at(header@, 6) as nat * 4) as usize)
        } else {
            None::<usize>
        },
{
    if header[0] != 1 {
        return None;
    }
    Some(get_u16_le(header, 6) as usize * 4)
}

/// What the client needs from the server's setup answer.
pub struct ScreenInfo {
    pub resource_id_base: u32,
    pub root_window: u32,
    pub white_pixel: u32,
    pub root_visual: u32,
    pub root_depth: u8,
}

/// Where the first screen's description starts: after the fixed part, the padded vendor
/// string and the pixmap formats.
pub open spec fn screen_offset(data: Seq<u8>) -> int {
    32 + pad4_spec(u16_at(data, 16) as nat) + data[21] as int * 8
}

/// Reads the first screen's description from the setup answer (after its first eight
/// bytes); `None` when the answer is too short to hold it.
pub fn parse_setup(data: &[u8]) -> (res: Option<ScreenInfo>)
    requires
        data@.len() >= 32,
    ensures
        match res {
            None => screen_offset(data@) + 39 > data@.len(),
            Some(s) => {
                let so = screen_offset(data@);
                &&& so + 39 <= data@.len()
                &&& s.resource_id_base == u32_at(data@, 4)
                &&& s.root_window == u32_at(data@, so)
                &&& s.white_pixel == u32_at(data@, so + 8)
                &&& s.root_visual == u32_at(data@, so + 32)
                &&& s.root_depth == data@[so + 38]
            },
        },
{
    let vendor_length = get_u16_le(data, 16) as usize;
    let formats = data[21] as usize;
    let so = 32 + pad4(vendor_length) + formats * 8;
    if so > data.len() || data.len() - so < 39 {
        return None;
    }
    Some(
        ScreenInfo {
            resource_id_base: get_u32_le(data, 4),
            root_window: get_u32_le(data, so),
            white_pixel: get_u32_le(data, so + 8),
            root_visual: get_u32_le(data, so + 32),
            root_depth: data[so + 38],
        },
    )
}

/// An `InternAtom` request for `name` (created if missing).
pub open spec fn intern_atom_spec(name: Seq<u8>) -> Seq<u8> {
    seq![16u8, 0u8] + le16(((8 + pad4_spec(name.len())) / 4) as u16) + le16(name.len() as u16) + zeros(2) + name
        + zeros((pad4_spec(name.len()) - name.len()) as nat)
}

/// The request that asks for the atom named `name`.
pub fn intern_atom_request(name: &[u8]) -> (res: Vec<u8>)
    requires
        name@.len() <= 65535,
    ensures
        res@ == intern_atom_spec(name@),
        res@.len() == 8 + pad4_spec(name@.len()),
{
    let n = name.len();
    let p = pad4(n);
    let mut out: Vec<u8> = Vec::new();
    out.push(16u8);
    out.push(0u8);
    put_u16_le(&mut out, ((8 + p) / 4) as u16);
    put_u16_le(&mut out, n as u16);
    put_zeros(&mut out, 2);
    extend(&mut out, name);
    put_zeros(&mut out, p - n);
    out
}

/// The atom an `InternAtom` reply carries.
pub fn atom_of_reply(reply: &[u8]) -> (res: u32)
    requires
        reply@.len() >= 12,
    ensures
        res == u32_at(reply@, 8),
{
    get_u32_le(reply, 8)
}

/// The width and height of the window.
pub const WIDTH: u16 = 400;
pub const HEIGHT: u16 = 300;

/// A `CreateWindow` request: a 400x300 window at (100, 100) with the root's depth and visual,
/// a white background, and key presses, exposures and structure changes selected.
pub open spec fn create_window_spec(wid: u32, parent: u32, depth: u8, visual: u32, white: u32) -> Seq<u8> {
    seq![1u8, depth] + le16(10) + le32(wid) + le32(parent) + le16(100) + le16(100) + le16(WIDTH) + le16(HEIGHT)
        + le16(0) + le16(1) + le32(visual) + le32(0x802) + le32(white) + le32(0x28001)
}

/// The request that creates the window.
pub fn create_window_request(wid: u32, parent: u32, depth: u8, visual: u32, white: u32) -> (res: Vec<u8>)
    ensures
        res@ == create_window_spec(wid, parent, depth, visual, white),
{
    let mut out: Vec<u8> = Vec::new();
    out.push(1u8);
    out.push(depth);
    put_u16_le(&mut out, 10);
    put_u32_le(&mut out, wid);
    put_u32_le(&mut out, parent);
    put_u16_le(&mut out, 100);
    put_u16_le(&mut out, 100);
    put_u16_le(&mut out, WIDTH);
    put_u16_le(&mut out, HEIGHT);
    put_u16_le(&mut out, 0);
    put_u16_le(&mut out, 1);
    put_u32_le(&mut out, visual);
    put_u32_le(&mut out, 0x802);
    put_u32_le(&mut out, white);
    put_u32_le(&mut out, 0x28001);
    out
}

/// A `ChangeProperty` request that sets the window's name (`WM_NAME`, a `STRING`).
pub open spec fn set_title_spec(wid: u32, title: Seq<u8>) -> Seq<u8> {
    seq![18u8, 0u8] + le16(((24 + pad4_spec(title.len())) / 4) as u16) + le32(wid) + le32(39) + le32(31)
        + seq![8u8, 0u8, 0u8, 0u8] + le32(title.len() as u32) + title + zeros(
        (pad4_spec(title.len()) - title.len()) as nat,
    )
}

/// The request that names the window.
pub fn set_title_request(wid: u32, title: &[u8]) -> (res: Vec<u8>)
    requires
        title@.len() <= 65535,
    ensures
        res@ == set_title_spec(wid, title@),
{
    let n = title.len();
    let p = pad4(n);
    let mut out: Vec<u8> = Vec::new();
    out.push(18u8);
    out.push(0u8);
    put_u16_le(&mut out, ((24 + p) / 4) as u16);
    put_u32_le(&mut out, wid);
    put_u32_le(&mut out, 39);
    put_u32_le(&mut out, 31);
    out.push(8u8);
    put_zeros(&mut out, 3);
    put_u32_le(&mut out, n as u32);
    extend(&mut out, title);
    put_zeros(&mut out, p - n);
    assert(zeros(3) =~= seq![0u8, 0u8, 0u8]);
    assert(out@ =~= set_title_spec(wid, title@));
    out
}

/// A `ChangeProperty` request that sets `WM_PROTOCOLS` to the one atom `delete_atom`.
pub open spec fn set_protocols_spec(wid: u32, protocols_atom: u32, delete_atom: u32) -> Seq<u8> {
    seq![18u8, 0u8] + le16(7) + le32(wid) + le32(protocols_atom) + le32(4) + seq![32u8, 0u8, 0u8, 0u8] + le32(1)
        + le32(delete_atom)
}

/// The request that asks the window manager to send a message instead of killing the
/// client when the window is closed.
pub fn set_protocols_request(wid: u32, protocols_atom: u32, delete_atom: u32) -> (res: Vec<u8>)
    ensures
        res@ == set_protocols_spec(wid, protocols_atom, delete_atom),
{
    let mut out: Vec<u8> = Vec::new();
    out.push(18u8);
    out.push(0u8);
    put_u16_le(&mut out, 7);
    put_u32_le(&mut out, wid);
    put_u32_le(&mut out, protocols_atom);
    put_u32_le(&mut out, 4);
    out.push(32u8);
    put_zeros(&mut out, 3);
    put_u32_le(&mut out, 1);
    put_u32_le(&mut out, delete_atom);
    assert(zeros(3) =~= seq![0u8, 0u8, 0u8]);
    assert(out@ =~= set_protocols_spec(wid, protocols_atom, delete_atom));
    out
}

/// The request that shows the window.
pub fn map_window_request(wid: u32) -> (res: Vec<u8>)
    ensures
        res@ == seq![8u8, 0u8] + le16(2) + le32(wid),
{
    let mut out: Vec<u8> = Vec::new();
    out.push(8u8);
    out.push(0u8);
    put_u16_le(&mut out, 2);
    put_u32_le(&mut out, wid);
    out
}

/// What an event means to the client.
#[derive(PartialEq, Eq, Structural, Clone, Copy)]
pub enum X11Event {
    /// The window needs redrawing.
    Expose,
    /// A key was pressed: the client ends.
    KeyPress,
    /// The window manager asked the window to close: the client ends.
    Close,
    /// Anything else is ignored.
    Other,
}

/// How the client reads a 32-byte event.
pub open spec fn event_spec(event: Seq<u8>, delete_atom: u32) -> X11Event {
    let code = event[0] & 0x7fu8;
    if code == 12 {
        X11Event::Expose
    } else if code == 2 {
        X11Event::KeyPress
    } else if code == 33 && u32_at(event, 12) == delete_atom {
        X11Event::Close
    } else {
        X11Event::Other
    }
}

/// Reads an event.
pub fn classify_event(event: &[u8], delete_atom: u32) -> (res: X11Event)
    requires
        event@.len() >= 16,
    ensures
        res == event_spec(event@, delete_atom),
{
    let code = event[0] & 0x7f;
    if code == 12 {
        X11Event::Expose
    } else if code == 2 {
        X11Event::KeyPress
    } else if code == 33 && get_u32_le(event, 12) == delete_atom {
        X11Event::Close
    } else {
        X11Event::Other
    }
}

/// Reading a number back from where it was written gives it back.
pub proof fn law_le_roundtrip(a: u16, b: u32)
    ensures
        u16_at(le16(a), 0) == a,
        u32_at(le32(b), 0) == b,
{
    assert(((a as u8) as u16) | ((((a >> 8u16) as u8) as u16) << 8u16) == a) by (bit_vector);
    assert(((b as u8) as u32) | ((((b >> 8u32) as u8) as u32) << 8u32) | ((((b >> 16u32) as u8) as u32) << 16u32) | (
    (((b >> 24u32) as u8) as u32) << 24u32) == b) by (bit_vector);
}

} // verus!
