//! Web-app icons: which glyph a server wears, which colour it takes from its
//! port, and how a picture of it is written as a file.

use vstd::prelude::*;
use vstd::string::*;

use crate::digest::{hex_bytes, hex_of};
use crate::num::{decimal, push_decimal};
use crate::text::{chars_of, push, trim, trim_slice, trim_start_char, trim_start_char_slice};

verus! {

/// The role a server plays, which the glyph announces.
#[derive(Clone, Copy, Debug, PartialEq, Eq, Structural)]
pub enum IconRole {
    /// The editor-driven preview.
    Lsp,
    /// A plain document server.
    Serve,
    /// A document server with annotation enabled.
    Annotate,
}

impl IconRole {
    /// The name of the role as it appears in a web app's title.
    pub open spec fn title_text(self) -> Seq<char> {
        match self {
            IconRole::Lsp => "Typst LSP"@,
            IconRole::Serve => "Typst Server"@,
            IconRole::Annotate => "Typst Annotator"@,
        }
    }

    /// The name of the role in the path of its icon.
    pub open spec fn icon_text(self) -> Seq<char> {
        match self {
            IconRole::Lsp => "lsp"@,
            IconRole::Serve => "serve"@,
            IconRole::Annotate => "anno"@,
        }
    }

    /// The name of the role as a person debugging it sees it.
    pub open spec fn debug_text(self) -> Seq<char> {
        match self {
            IconRole::Lsp => "Lsp"@,
            IconRole::Serve => "Serve"@,
            IconRole::Annotate => "Annotate"@,
        }
    }

    /// The name of the role as it appears in a web app's title.
    pub fn title(self) -> (r: &'static str)
        ensures
            r@ == self.title_text(),
    {
        match self {
            IconRole::Lsp => "Typst LSP",
            IconRole::Serve => "Typst Server",
            IconRole::Annotate => "Typst Annotator",
        }
    }

    /// The name of the role in the path of its icon.
    pub fn icon_name(self) -> (r: &'static str)
        ensures
            r@ == self.icon_text(),
    {
        match self {
            IconRole::Lsp => "lsp",
            IconRole::Serve => "serve",
            IconRole::Annotate => "anno",
        }
    }

    /// The name of the role as a person debugging it sees it.
    fn debug_name(self) -> (r: &'static str)
        ensures
            r@ == self.debug_text(),
    {
        match self {
            IconRole::Lsp => "Lsp",
            IconRole::Serve => "Serve",
            IconRole::Annotate => "Annotate",
        }
    }
}

/// The side of the baked masks.
pub const MASK_SIZE: usize = 512;

// ------------------------------------------------------------------ colours

/// A port scrambled, so that ports that differ by very little do not land on
/// neighbouring hues.
pub open spec fn scrambled(port: u16) -> u64 {
    let a = (port as u64).wrapping_mul(0x9e37_79b9_7f4a_7c15);
    let b = (a ^ (a >> 30)).wrapping_mul(0xbf58_476d_1ce4_e5b9);
    let c = (b ^ (b >> 27)).wrapping_mul(0x94d0_49bb_1331_11eb);
    c ^ (c >> 31)
}

/// The hue for a port, in tenths of a degree.
///
/// Continuous rather than a palette: a fixed list collides, and its entries
/// disagree about lightness.
pub fn hue_tenths(port: u16) -> (r: u64)
    ensures
        r == scrambled(port) % 3600,
        r < 3600,
{
    let a: u64 = (port as u64).wrapping_mul(0x9e37_79b9_7f4a_7c15);
    let b: u64 = (a ^ (a >> 30)).wrapping_mul(0xbf58_476d_1ce4_e5b9);
    let c: u64 = (b ^ (b >> 27)).wrapping_mul(0x94d0_49bb_1331_11eb);
    (c ^ (c >> 31)) % 3600
}

/// The number a hexadecimal digit writes, in either case.
pub open spec fn hex_value(c: char) -> Option<int> {
    if '0' <= c <= '9' {
        Some(c as u32 - '0' as u32)
    } else if 'a' <= c <= 'f' {
        Some(c as u32 - 'a' as u32 + 10)
    } else if 'A' <= c <= 'F' {
        Some(c as u32 - 'A' as u32 + 10)
    } else {
        None
    }
}

/// The number a hexadecimal digit writes.
pub fn hex_digit_value(c: char) -> (r: Option<u8>)
    ensures
        match r {
            Some(d) => hex_value(c) == Some(d as int) && d < 16,
            None => hex_value(c) is None,
        },
{
    if '0' <= c && c <= '9' {
        Some(c as u8 - 48)
    } else if 'a' <= c && c <= 'f' {
        Some(c as u8 - 87)
    } else if 'A' <= c && c <= 'F' {
        Some(c as u8 - 55)
    } else {
        None
    }
}

/// The colour a row of hexadecimal digits writes: three of them, or six.
pub open spec fn color_of(digits: Seq<char>) -> Option<(int, int, int)> {
    if exists|i: int| 0 <= i < digits.len() && hex_value(#[trigger] digits[i]) is None {
        None
    } else if digits.len() == 3 {
        Some(
            (
                hex_value(digits[0]).unwrap() * 17,
                hex_value(digits[1]).unwrap() * 17,
                hex_value(digits[2]).unwrap() * 17,
            ),
        )
    } else if digits.len() == 6 {
        Some(
            (
                hex_value(digits[0]).unwrap() * 16 + hex_value(digits[1]).unwrap(),
                hex_value(digits[2]).unwrap() * 16 + hex_value(digits[3]).unwrap(),
                hex_value(digits[4]).unwrap() * 16 + hex_value(digits[5]).unwrap(),
            ),
        )
    } else {
        None
    }
}

/// The colour a text names.
pub open spec fn named_color(text: Seq<char>) -> Option<(int, int, int)> {
    color_of(trim_start_char(trim(text), '#'))
}

/// Parses `#rrggbb`, `rrggbb`, `#rgb` or `rgb`.
pub fn parse_hex(text: &str) -> (r: Option<[u8; 3]>)
    ensures
        match r {
            Some(c) => named_color(text@) == Some((c@[0] as int, c@[1] as int, c@[2] as int)),
            None => named_color(text@) is None,
        },
{
    let t: Vec<char> = chars_of(text);
    let hex: &[char] = trim_start_char_slice(trim_slice(t.as_slice()), '#');
    let mut digits: Vec<u8> = Vec::new();
    let mut i: usize = 0;
    while i < hex.len()
        invariant
            i <= hex@.len(),
            hex@ == trim_start_char(trim(text@), '#'),
            digits@.len() == i,
            forall|k: int|
                0 <= k < i ==> digits@[k] < 16 && hex_value(#[trigger] hex@[k]) == Some(
                    digits@[k] as int,
                ),
        decreases hex@.len() - i,
    {
        match hex_digit_value(hex[i]) {
            Some(d) => {
                digits.push(d);
            },
            None => {
                assert(hex_value(hex@[i as int]) is None);
                return None;
            },
        }
        i = i + 1;
    }
    if digits.len() == 3 {
        assert(hex_value(hex@[0]) is Some && hex_value(hex@[1]) is Some && hex_value(hex@[2]) is Some);
        Some([digits[0] * 17, digits[1] * 17, digits[2] * 17])
    } else if digits.len() == 6 {
        assert(hex_value(hex@[0]) is Some && hex_value(hex@[1]) is Some && hex_value(hex@[2]) is Some);
        assert(hex_value(hex@[3]) is Some && hex_value(hex@[4]) is Some && hex_value(hex@[5]) is Some);
        Some(
            [
                digits[0] * 16 + digits[1],
                digits[2] * 16 + digits[3],
                digits[4] * 16 + digits[5],
            ],
        )
    } else {
        None
    }
}

/// A colour as a page writes it.
pub fn hex_color(color: [u8; 3]) -> (r: String)
    ensures
        r@ == "#"@ + hex_bytes(color@),
{
    let mut out: String = "#".to_string();
    let bytes: Vec<u8> = vec![color[0], color[1], color[2]];
    assert(bytes@.take(3) =~= color@);
    out.append(hex_of(bytes.as_slice(), 3).as_str());
    out
}

// ---------------------------------------------------------------- the glyphs

/// What a zlib stream holds, or what is wrong with it.
pub uninterp spec fn inflated(packed: Seq<u8>) -> Result<Seq<u8>, Seq<char>>;

/// `flate2::read::ZlibDecoder`: what a zlib stream holds, or the decoder's own
/// words about what is wrong with it.
#[verifier::external_body]
fn inflate(packed: &[u8]) -> (r: Result<Vec<u8>, String>)
    ensures
        match r {
            Ok(bytes) => inflated(packed@) is Ok && inflated(packed@)->Ok_0 == bytes@,
            Err(e) => inflated(packed@) is Err && inflated(packed@)->Err_0 == e@,
        },
{
    let mut out = Vec::new();
    match std::io::Read::read_to_end(&mut flate2::read::ZlibDecoder::new(packed), &mut out) {
        Ok(_) => Ok(out),
        Err(e) => Err(e.to_string()),
    }
}

/// A glyph's mask, of what its packed bytes hold: it has to be square and of
/// the side all of them have.
pub open spec fn mask_of(role: IconRole, held: Result<Seq<u8>, Seq<char>>) -> Result<
    Seq<u8>,
    Seq<char>,
> {
    match held {
        Err(e) => Err("cannot inflate the "@ + role.debug_text() + " glyph: "@ + e),
        Ok(bytes) => if bytes.len() == MASK_SIZE * MASK_SIZE {
            Ok(bytes)
        } else {
            Err("the "@ + role.debug_text() + " glyph is "@ + decimal(bytes.len()) + " bytes"@)
        },
    }
}

/// A mask or what is wrong with it.
pub open spec fn mask_view(r: Result<Vec<u8>, String>) -> Result<Seq<u8>, Seq<char>> {
    match r {
        Ok(bytes) => Ok(bytes@),
        Err(e) => Err(e@),
    }
}

/// A glyph's mask, of what its packed bytes turned out to hold.
pub fn check_mask(role: IconRole, held: Result<Vec<u8>, String>) -> (r: Result<Vec<u8>, String>)
    ensures
        mask_view(r) == mask_of(role, mask_view(held)),
{
    match held {
        Err(e) => {
            let mut out: String = "cannot inflate the ".to_string();
            out.append(role.debug_name());
            out.append(" glyph: ");
            out.append(e.as_str());
            Err(out)
        },
        Ok(bytes) => {
            if bytes.len() == 262144 {
                Ok(bytes)
            } else {
                let mut out: String = "the ".to_string();
                out.append(role.debug_name());
                out.append(" glyph is ");
                push_decimal(&mut out, bytes.len() as u64);
                out.append(" bytes");
                Err(out)
            }
        },
    }
}

/// The mask of a role's glyph, one byte of ink per pixel, out of its packed
/// bytes.
pub fn read_mask(role: IconRole, packed: &[u8]) -> (r: Result<Vec<u8>, String>)
    ensures
        mask_view(r) == mask_of(role, inflated(packed@)),
{
    check_mask(role, inflate(packed))
}

// ------------------------------------------------------------------ pictures

/// A zlib stream that holds some bytes, as small as zlib can make it.
pub uninterp spec fn deflated(bytes: Seq<u8>) -> Seq<u8>;

/// `flate2::write::ZlibEncoder` at its best compression: a zlib stream that
/// holds some bytes, which reading it gives back.
#[verifier::external_body]
fn deflate(bytes: &[u8]) -> (r: Vec<u8>)
    ensures
        r@ == deflated(bytes@),
        inflated(r@) is Ok && inflated(r@)->Ok_0 == bytes@,
{
    let mut out = flate2::write::ZlibEncoder::new(Vec::new(), flate2::Compression::best());
    let _ = std::io::Write::write_all(&mut out, bytes);
    out.finish().unwrap_or_default()
}

/// A checksum with `n` more bits divided out, the lowest first.
pub open spec fn crc_divided(crc: u32, n: nat) -> u32
    decreases n,
{
    if n == 0 {
        crc
    } else {
        crc_divided(
            if crc & 1 == 1 {
                (crc >> 1) ^ 0xedb8_8320
            } else {
                crc >> 1
            },
            (n - 1) as nat,
        )
    }
}

/// The remainder of some bytes that begins with all bits set.
pub open spec fn crc_remainder(bytes: Seq<u8>) -> u32
    decreases bytes.len(),
{
    if bytes.len() == 0 {
        0xffff_ffff
    } else {
        crc_divided(crc_remainder(bytes.drop_last()) ^ (bytes.last() as u32), 8)
    }
}

/// The checksum of some bytes, which PNG calls CRC: the remainder with all bits turned over.
pub open spec fn crc32(bytes: Seq<u8>) -> u32 {
    crc_remainder(bytes) ^ 0xffff_ffff
}

/// `flate2::Crc`: the CRC-32 of some bytes, as gzip and PNG have it.
#[verifier::external_body]
fn crc32_of(bytes: &[u8]) -> (r: u32)
    ensures
        r == crc32(bytes@),
{
    let mut crc = flate2::Crc::new();
    crc.update(bytes);
    crc.sum()
}

/// The bytes of a number, highest first.
pub open spec fn be_bytes(n: nat, count: nat) -> Seq<u8>
    decreases count,
{
    if count == 0 {
        seq![]
    } else {
        be_bytes(n / 256, (count - 1) as nat).push((n % 256) as u8)
    }
}

/// Writes the four bytes of a number, highest first.
fn push_be(out: &mut Vec<u8>, n: u32)
    ensures
        final(out)@ == old(out)@ + be_bytes(n as nat, 4),
{
    out.push((n / 16777216) as u8);
    out.push((n / 65536 % 256) as u8);
    out.push((n / 256 % 256) as u8);
    out.push((n % 256) as u8);
    proof {
        reveal_with_fuel(be_bytes, 5);
        let m = n as nat;
        assert(m / 256 / 256 == m / 65536);
        assert(m / 65536 / 256 == m / 16777216);
        assert((m / 16777216) % 256 == m / 16777216);
        assert(be_bytes(m, 4) =~= seq![
            (m / 16777216) as u8,
            (m / 65536 % 256) as u8,
            (m / 256 % 256) as u8,
            (m % 256) as u8,
        ]);
        assert(out@ =~= old(out)@ + be_bytes(m, 4));
    }
}

/// Puts bytes after others.
fn push_bytes(out: &mut Vec<u8>, part: &[u8])
    ensures
        final(out)@ == old(out)@ + part@,
{
    let mut i: usize = 0;
    while i < part.len()
        invariant
            i <= part@.len(),
            out@ == old(out)@ + part@.take(i as int),
        decreases part@.len() - i,
    {
        out.push(part[i]);
        assert(out@ =~= old(out)@ + part@.take(i + 1));
        i = i + 1;
    }
    assert(part@.take(i as int) =~= part@);
}

/// One chunk of a PNG: how long what it holds is, what it is called, what it
/// holds, and the checksum of the last two.
pub open spec fn chunk(tag: Seq<u8>, data: Seq<u8>) -> Seq<u8> {
    be_bytes(data.len() % 0x1_0000_0000, 4) + tag + data + be_bytes(crc32(tag + data) as nat, 4)
}

/// Writes one chunk of a PNG.
fn push_chunk(out: &mut Vec<u8>, tag: &[u8], data: &[u8])
    ensures
        final(out)@ == old(out)@ + chunk(tag@, data@),
{
    let mut body: Vec<u8> = Vec::new();
    push_bytes(&mut body, tag);
    push_bytes(&mut body, data);
    assert(body@ =~= tag@ + data@);
    let len: u64 = data.len() as u64 % 0x1_0000_0000;
    push_be(out, len as u32);
    push_bytes(out, body.as_slice());
    push_be(out, crc32_of(body.as_slice()));
    assert(out@ =~= old(out)@ + chunk(tag@, data@));
}

/// The first rows of a picture as a PNG holds them: each with a byte before it
/// that says it is not filtered.
pub open spec fn rows(rgba: Seq<u8>, side: nat, n: nat) -> Seq<u8>
    decreases n,
{
    if n == 0 {
        seq![]
    } else {
        rows(rgba, side, (n - 1) as nat) + seq![0u8] + rgba.subrange(
            (n - 1) * side * 4,
            (n * side * 4) as int,
        )
    }
}

/// What a PNG begins with.
pub open spec fn png_signature() -> Seq<u8> {
    seq![0x89u8, 0x50, 0x4e, 0x47, 0x0d, 0x0a, 0x1a, 0x0a]
}

/// The head of a square picture: its sides, eight bits a channel, colour with
/// alpha, not interlaced.
pub open spec fn png_head(side: nat) -> Seq<u8> {
    be_bytes(side % 0x1_0000_0000, 4) + be_bytes(side % 0x1_0000_0000, 4) + seq![8u8, 6, 0, 0, 0]
}

/// A square picture as a PNG.
pub open spec fn png(side: nat, rgba: Seq<u8>) -> Seq<u8> {
    png_signature() + chunk(seq![0x49u8, 0x48, 0x44, 0x52], png_head(side)) + chunk(
        seq![0x49u8, 0x44, 0x41, 0x54],
        deflated(rows(rgba, side, side)),
    ) + chunk(seq![0x49u8, 0x45, 0x4e, 0x44], seq![])
}

/// Writes 8-bit RGBA pixels of a square picture as a PNG.
pub fn encode_png(size: usize, rgba: &[u8]) -> (r: Vec<u8>)
    requires
        rgba@.len() == size * size * 4,
    ensures
        r@ == png(size as nat, rgba@),
{
    let total: usize = rgba.len();
    let mut raw: Vec<u8> = Vec::new();
    let mut y: usize = 0;
    let mut at: usize = 0;
    while y < size
        invariant
            y <= size,
            total == rgba@.len(),
            total == size * size * 4,
            at == y * size * 4,
            raw@ == rows(rgba@, size as nat, y as nat),
        decreases size - y,
    {
        proof {
            assert((y + 1) * size * 4 <= size * size * 4) by (nonlinear_arith)
                requires
                    y < size,
            ;
            assert((y + 1) * size * 4 == y * size * 4 + size * 4) by (nonlinear_arith);
        }
        raw.push(0);
        let end: usize = at + row_bytes(size, total - at);
        push_bytes(&mut raw, vstd::slice::slice_subrange(rgba, at, end));
        assert(raw@ =~= rows(rgba@, size as nat, (y + 1) as nat));
        at = end;
        y = y + 1;
    }
    let idat: Vec<u8> = deflate(raw.as_slice());
    let side: u64 = size as u64 % 0x1_0000_0000;
    let mut head: Vec<u8> = Vec::new();
    push_be(&mut head, side as u32);
    push_be(&mut head, side as u32);
    let rest: Vec<u8> = vec![8, 6, 0, 0, 0];
    push_bytes(&mut head, rest.as_slice());
    assert(head@ =~= png_head(size as nat));
    let mut out: Vec<u8> = vec![0x89, 0x50, 0x4e, 0x47, 0x0d, 0x0a, 0x1a, 0x0a];
    let ihdr: Vec<u8> = vec![0x49, 0x48, 0x44, 0x52];
    let idat_tag: Vec<u8> = vec![0x49, 0x44, 0x41, 0x54];
    let iend: Vec<u8> = vec![0x49, 0x45, 0x4e, 0x44];
    let none: Vec<u8> = Vec::new();
    assert(out@ =~= png_signature());
    assert(ihdr@ =~= seq![0x49u8, 0x48, 0x44, 0x52]);
    assert(idat_tag@ =~= seq![0x49u8, 0x44, 0x41, 0x54]);
    assert(iend@ =~= seq![0x49u8, 0x45, 0x4e, 0x44]);
    assert(none@ =~= seq![]);
    push_chunk(&mut out, ihdr.as_slice(), head.as_slice());
    push_chunk(&mut out, idat_tag.as_slice(), idat.as_slice());
    push_chunk(&mut out, iend.as_slice(), none.as_slice());
    out
}

/// How many bytes a row takes, which is no more than are left.
fn row_bytes(size: usize, left: usize) -> (r: usize)
    requires
        size * 4 <= left,
    ensures
        r == size * 4,
{
    size * 4
}

/// A picture says how wide and how high it is, right after what a PNG begins
/// with.
pub proof fn png_says_its_size(side: nat, rgba: Seq<u8>)
    requires
        side < 0x1_0000_0000,
    ensures
        png(side, rgba).take(8) == png_signature(),
        png(side, rgba).subrange(16, 20) == be_bytes(side, 4),
        png(side, rgba).subrange(20, 24) == be_bytes(side, 4),
{
    reveal_with_fuel(be_bytes, 5);
    let all = png(side, rgba);
    let head = png_head(side);
    let first = chunk(seq![0x49u8, 0x48, 0x44, 0x52], head);
    assert(head.len() == 13);
    assert(first.subrange(8, 12) =~= be_bytes(side, 4));
    assert(first.subrange(12, 16) =~= be_bytes(side, 4));
    assert(all.take(8) =~= png_signature());
    assert(all.subrange(16, 20) =~= first.subrange(8, 12));
    assert(all.subrange(20, 24) =~= first.subrange(12, 16));
}

/// A number is had back from its bytes, the greatest first.
pub open spec fn be_number(bytes: Seq<u8>) -> nat
    decreases bytes.len(),
{
    if bytes.len() == 0 {
        0
    } else {
        256 * be_number(bytes.drop_last()) + bytes.last() as nat
    }
}

/// How many numbers some bytes can stand for.
pub open spec fn be_limit(count: nat) -> nat
    decreases count,
{
    if count == 0 {
        1
    } else {
        256 * be_limit((count - 1) as nat)
    }
}

/// The bytes of a number stand for it.
pub proof fn bytes_stand_for_their_number(n: nat, count: nat)
    requires
        n < be_limit(count),
    ensures
        be_bytes(n, count).len() == count,
        be_number(be_bytes(n, count)) == n,
    decreases count,
{
    if count > 0 {
        bytes_stand_for_their_number(n / 256, (count - 1) as nat);
        let bytes = be_bytes(n, count);
        assert(bytes.drop_last() =~= be_bytes(n / 256, (count - 1) as nat));
    }
}

/// A colour of three digits is that of six with each digit twice, and every part of a colour is a
/// byte.
pub proof fn a_short_colour_is_the_long_one(a: char, b: char, c: char, digits: Seq<char>)
    ensures
        color_of(seq![a, b, c]) == color_of(seq![a, a, b, b, c, c]),
        color_of(digits) matches Some((red, green, blue)) ==> 0 <= red <= 255 && 0 <= green <= 255 && 0
            <= blue <= 255,
        color_of(digits) is Some ==> digits.len() == 3 || digits.len() == 6,
{
    let short = seq![a, b, c];
    let long = seq![a, a, b, b, c, c];
    if exists|i: int| 0 <= i < long.len() && hex_value(#[trigger] long[i]) is None {
        let i = choose|i: int| 0 <= i < long.len() && hex_value(#[trigger] long[i]) is None;
        assert(short[i / 2] == long[i]);
    }
    if exists|i: int| 0 <= i < short.len() && hex_value(#[trigger] short[i]) is None {
        let i = choose|i: int| 0 <= i < short.len() && hex_value(#[trigger] short[i]) is None;
        assert(long[2 * i] == short[i]);
    }
    assert(hex_value(short[0]) == hex_value(long[0]) && hex_value(short[1]) == hex_value(long[2])
        && hex_value(short[2]) == hex_value(long[4]));
    if color_of(digits) is Some {
        assert(hex_value(digits[0]) is Some && hex_value(digits[1]) is Some && hex_value(digits[2])
            is Some);
        if digits.len() == 6 {
            assert(hex_value(digits[3]) is Some && hex_value(digits[4]) is Some && hex_value(digits[5])
                is Some);
        }
    }
}

} // verus!
