//! The canonical encoding of a torrent's info dictionary, whose SHA-256
//! digest is the info-hash.
//!
//! The encoding is compact JSON with the keys in the order `name`,
//! `piece_length`, `pieces`, `files`; each file lists `path`, `length` and,
//! when present, `file_hash`. Strings are escaped as JSON requires: `"` and
//! `\` with a backslash, the control characters backspace, tab, line feed,
//! form feed and carriage return by their short escapes, the other control
//! characters as `\u00XX` with lowercase digits; every other byte of the
//! UTF-8 text is kept.

use vstd::prelude::*;
use vstd::string::StringSliceAdditionalSpecFns;
use vstd::utf8::encode_utf8;
use crate::be_bytes::put_bytes;
use crate::metadata::FileEntry;

verus! {

/// Lowercase hexadecimal digit byte of a value below 16.
pub open spec fn hex_digit_byte(n: u8) -> u8 {
    if n < 10 {
        (n + 48) as u8
    } else {
        (n + 87) as u8
    }
}

/// JSON escape of one byte of UTF-8 text.
pub open spec fn escape_byte(b: u8) -> Seq<u8> {
    if b == 0x22 {
        seq![0x5cu8, 0x22u8]
    } else if b == 0x5c {
        seq![0x5cu8, 0x5cu8]
    } else if b == 0x08 {
        seq![0x5cu8, 0x62u8]
    } else if b == 0x09 {
        seq![0x5cu8, 0x74u8]
    } else if b == 0x0a {
        seq![0x5cu8, 0x6eu8]
    } else if b == 0x0c {
        seq![0x5cu8, 0x66u8]
    } else if b == 0x0d {
        seq![0x5cu8, 0x72u8]
    } else if b < 0x20 {
        seq![0x5cu8, 0x75u8, 0x30u8, 0x30u8, hex_digit_byte(b / 16), hex_digit_byte(b % 16)]
    } else {
        seq![b]
    }
}

/// JSON escape of UTF-8 text.
pub open spec fn escape_bytes(s: Seq<u8>) -> Seq<u8>
    decreases s.len(),
{
    if s.len() == 0 {
        Seq::empty()
    } else {
        escape_bytes(s.drop_last()) + escape_byte(s.last())
    }
}

/// A JSON string literal.
pub open spec fn json_string(s: Seq<char>) -> Seq<u8> {
    seq![0x22u8] + escape_bytes(encode_utf8(s)) + seq![0x22u8]
}

/// Decimal digits of a number.
pub open spec fn decimal(n: nat) -> Seq<u8>
    decreases n,
{
    if n < 10 {
        seq![(n + 48) as u8]
    } else {
        decimal(n / 10) + seq![((n % 10) + 48) as u8]
    }
}

/// Comma-separated JSON strings.
pub open spec fn string_items(items: Seq<String>) -> Seq<u8>
    decreases items.len(),
{
    if items.len() == 0 {
        Seq::empty()
    } else if items.len() == 1 {
        json_string(items[0]@)
    } else {
        string_items(items.drop_last()) + seq![0x2cu8] + json_string(items.last()@)
    }
}

/// A JSON array of strings.
pub open spec fn string_list(items: Seq<String>) -> Seq<u8> {
    seq![0x5bu8] + string_items(items) + seq![0x5du8]
}

/// A file entry as a JSON object.
pub open spec fn file_object(f: FileEntry) -> Seq<u8> {
    "{\"path\":".spec_bytes() + string_list(f.path@) + ",\"length\":".spec_bytes() + decimal(
        f.length as nat,
    ) + match f.file_hash {
        Some(h) => ",\"file_hash\":".spec_bytes() + json_string(h@),
        None => Seq::empty(),
    } + seq![0x7du8]
}

/// Comma-separated file objects.
pub open spec fn file_items(files: Seq<FileEntry>) -> Seq<u8>
    decreases files.len(),
{
    if files.len() == 0 {
        Seq::empty()
    } else if files.len() == 1 {
        file_object(files[0])
    } else {
        file_items(files.drop_last()) + seq![0x2cu8] + file_object(files.last())
    }
}

/// The canonical encoding of an info dictionary.
pub open spec fn canonical_info(
    name: Seq<char>,
    piece_length: u32,
    pieces: Seq<String>,
    files: Seq<FileEntry>,
) -> Seq<u8> {
    "{\"name\":".spec_bytes() + json_string(name) + ",\"piece_length\":".spec_bytes() + decimal(
        piece_length as nat,
    ) + ",\"pieces\":".spec_bytes() + string_list(pieces) + ",\"files\":[".spec_bytes()
        + file_items(files) + "]}".spec_bytes()
}

/// Appends the text of a literal.
fn put_str(out: &mut Vec<u8>, s: &str)
    ensures
        final(out)@ == old(out)@ + s.spec_bytes(),
{
    put_bytes(out, s.as_bytes());
}

/// Appends a JSON string literal.
pub fn put_json_string(out: &mut Vec<u8>, s: &str)
    ensures
        final(out)@ == old(out)@ + json_string(s@),
{
    let bytes = s.as_bytes();
    out.push(0x22u8);
    let ghost start = out@;
    let mut i: usize = 0;
    while i < bytes.len()
        invariant
            bytes@ == encode_utf8(s@),
            0 <= i <= bytes@.len(),
            out@ == start + escape_bytes(bytes@.take(i as int)),
        decreases bytes@.len() - i,
    {
        let b = bytes[i];
        let ghost before = out@;
        if b == 0x22u8 {
            out.push(0x5cu8);
            out.push(0x22u8);
        } else if b == 0x5cu8 {
            out.push(0x5cu8);
            out.push(0x5cu8);
        } else if b == 0x08u8 {
            out.push(0x5cu8);
            out.push(0x62u8);
        } else if b == 0x09u8 {
            out.push(0x5cu8);
            out.push(0x74u8);
        } else if b == 0x0au8 {
            out.push(0x5cu8);
            out.push(0x6eu8);
        } else if b == 0x0cu8 {
            out.push(0x5cu8);
            out.push(0x66u8);
        } else if b == 0x0du8 {
            out.push(0x5cu8);
            out.push(0x72u8);
        } else if b < 0x20u8 {
            out.push(0x5cu8);
            out.push(0x75u8);
            out.push(0x30u8);
            out.push(0x30u8);
            let hi = b / 16;
            let lo = b % 16;
            out.push(if hi < 10 { hi + 48 } else { hi + 87 });
            out.push(if lo < 10 { lo + 48 } else { lo + 87 });
        } else {
            out.push(b);
        }
        assert(out@ =~= before + escape_byte(b));
        assert(bytes@.take(i + 1).drop_last() =~= bytes@.take(i as int));
        i = i + 1;
    }
    assert(bytes@.take(bytes@.len() as int) =~= bytes@);
    out.push(0x22u8);
    assert(out@ =~= old(out)@ + json_string(s@));
}

/// Appends the decimal digits of a number.
pub fn put_decimal(out: &mut Vec<u8>, n: u64)
    ensures
        final(out)@ == old(out)@ + decimal(n as nat),
    decreases n,
{
    if n >= 10 {
        put_decimal(out, n / 10);
    }
    out.push(((n % 10) as u8) + 48);
    assert(out@ =~= old(out)@ + decimal(n as nat));
}

/// Appends a JSON array of strings.
pub fn put_string_list(out: &mut Vec<u8>, items: &Vec<String>)
    ensures
        final(out)@ == old(out)@ + string_list(items@),
{
    out.push(0x5bu8);
    let ghost start = out@;
    let mut i: usize = 0;
    while i < items.len()
        invariant
            0 <= i <= items@.len(),
            out@ == start + string_items(items@.take(i as int)),
        decreases items@.len() - i,
    {
        if i > 0 {
            out.push(0x2cu8);
        }
        put_json_string(out, items[i].as_str());
        assert(items@.take(i + 1).drop_last() =~= items@.take(i as int));
        assert(out@ =~= start + string_items(items@.take(i + 1)));
        i = i + 1;
    }
    assert(items@.take(items@.len() as int) =~= items@);
    out.push(0x5du8);
    assert(out@ =~= old(out)@ + string_list(items@));
}

/// Appends a file entry as a JSON object.
pub fn put_file_object(out: &mut Vec<u8>, f: &FileEntry)
    ensures
        final(out)@ == old(out)@ + file_object(*f),
{
    put_str(out, "{\"path\":");
    put_string_list(out, &f.path);
    put_str(out, ",\"length\":");
    put_decimal(out, f.length);
    match &f.file_hash {
        Some(h) => {
            put_str(out, ",\"file_hash\":");
            put_json_string(out, h.as_str());
        },
        None => {},
    }
    out.push(0x7du8);
    assert(out@ =~= old(out)@ + file_object(*f));
}

/// The canonical encoding of an info dictionary.
pub fn encode_info(name: &str, piece_length: u32, pieces: &Vec<String>, files: &Vec<FileEntry>) -> (r: Vec<u8>)
    ensures
        r@ == canonical_info(name@, piece_length, pieces@, files@),
{
    let mut out: Vec<u8> = Vec::new();
    put_str(&mut out, "{\"name\":");
    put_json_string(&mut out, name);
    put_str(&mut out, ",\"piece_length\":");
    put_decimal(&mut out, piece_length as u64);
    put_str(&mut out, ",\"pieces\":");
    put_string_list(&mut out, pieces);
    put_str(&mut out, ",\"files\":[");
    let ghost start = out@;
    let mut i: usize = 0;
    while i < files.len()
        invariant
            0 <= i <= files@.len(),
            out@ == start + file_items(files@.take(i as int)),
        decreases files@.len() - i,
    {
        if i > 0 {
            out.push(0x2cu8);
        }
        put_file_object(&mut out, &files[i]);
        assert(files@.take(i + 1).drop_last() =~= files@.take(i as int));
        assert(out@ =~= start + file_items(files@.take(i + 1)));
        i = i + 1;
    }
    assert(files@.take(files@.len() as int) =~= files@);
    put_str(&mut out, "]}");
    assert(out@ =~= canonical_info(name@, piece_length, pieces@, files@));
    out
}

} // verus!
